//! Slides, their metadata, and navigation through a deck.
use vstd::prelude::*;

use crate::text::{
    chars_of, count_char, count_char_in, decimal, ends_with, find_char, find_char_in,
    is_digit, is_ws, lemma_count_char_absent, lemma_decimal_digits, lemma_find_char_at,
    lemma_find_char_bound, lemma_parse_decimal, lemma_trim_is_trimmed, lines, all_digits, parse_u32_chars, parse_u32_spec, push_chars, push_decimal,
    push_str_chars, split_lines, starts_with, sub_chars, trim, trim_chars,
};

verus! {

/// A slide's place in the deck: its chapter and its number within the chapter.
#[derive(Debug, Clone, Copy, PartialEq, Eq, Structural, Hash)]
pub struct SlideKey {
    pub chapter: u32,
    pub slide: u32,
}

/// What is known of a slide: numbers, names, and presenter notes.
#[derive(Debug, Clone)]
pub struct SlideMeta {
    pub chapter_num: u32,
    pub slide_num: u32,
    pub chapter_name: String,
    pub slide_name: String,
    pub presenter_notes: String,
}

/// The mathematical value of a [`SlideMeta`].
pub struct MetaView {
    pub chapter_num: u32,
    pub slide_num: u32,
    pub chapter_name: Seq<char>,
    pub slide_name: Seq<char>,
    pub presenter_notes: Seq<char>,
}

impl View for SlideMeta {
    type V = MetaView;

    open spec fn view(&self) -> MetaView {
        MetaView {
            chapter_num: self.chapter_num,
            slide_num: self.slide_num,
            chapter_name: self.chapter_name@,
            slide_name: self.slide_name@,
            presenter_notes: self.presenter_notes@,
        }
    }
}

/// Slide metadata keyed by `(chapter, slide)`; a later insertion under a key
/// replaces the earlier one.
#[derive(Debug)]
pub struct SlideMetaMap {
    keys: Vec<(u32, u32)>,
    values: Vec<SlideMeta>,
}

impl SlideMetaMap {
    #[verifier::type_invariant]
    spec fn inv(&self) -> bool {
        &&& self.keys.len() == self.values.len()
        &&& self.keys@.no_duplicates()
    }

    /// The keys in insertion order.
    pub closed spec fn key_seq(&self) -> Seq<(u32, u32)> {
        self.keys@
    }

    pub closed spec fn as_map(&self) -> Map<(u32, u32), MetaView> {
        Map::new(
            |k: (u32, u32)| self.keys@.contains(k),
            |k: (u32, u32)| self.values@[self.keys@.index_of(k)]@,
        )
    }

    proof fn lemma_index_of(&self, i: int)
        requires
            self.inv(),
            0 <= i < self.keys.len(),
        ensures
            self.keys@.index_of(self.keys@[i]) == i,
    {
        let k = self.keys@[i];
        assert(self.keys@.contains(k));
        let j = self.keys@.index_of(k);
        assert(0 <= j < self.keys.len() && self.keys@[j] == k);
    }

    /// An empty map.
    pub fn new() -> (r: Self)
        ensures
            r@ == Map::<(u32, u32), MetaView>::empty(),
    {
        let r = SlideMetaMap { keys: Vec::new(), values: Vec::new() };
        assert(r@ =~= Map::<(u32, u32), MetaView>::empty());
        r
    }

    /// Number of keys.
    pub fn len(&self) -> (r: usize)
        ensures
            r == self@.len(),
    {
        proof {
            use_type_invariant(self);
            assert(self.inv());
            assert(self.keys@.no_duplicates());
            self.keys@.unique_seq_to_set();
            assert(self@.dom() =~= self.keys@.to_set());
        }
        self.keys.len()
    }

    /// Whether the map has no key.
    pub fn is_empty(&self) -> (r: bool)
        ensures
            r == (self@.len() == 0),
    {
        self.len() == 0
    }

    fn position(&self, key: &(u32, u32)) -> (r: Option<usize>)
        ensures
            match r {
                Some(i) => i < self.keys.len() && self.keys@[i as int] == *key,
                None => !self.keys@.contains(*key),
            },
    {
        let mut i: usize = 0;
        while i < self.keys.len()
            invariant
                0 <= i <= self.keys.len(),
                forall|j: int| 0 <= j < i ==> self.keys@[j] != *key,
            decreases self.keys.len() - i,
        {
            if self.keys[i].0 == key.0 && self.keys[i].1 == key.1 {
                return Some(i);
            }
            i += 1;
        }
        None
    }

    /// The metadata stored under `key`, if any.
    pub fn get(&self, key: &(u32, u32)) -> (r: Option<&SlideMeta>)
        ensures
            r is Some == self@.contains_key(*key),
            r matches Some(m) ==> m@ == self@[*key],
    {
        proof {
            use_type_invariant(self);
        }
        match self.position(key) {
            Some(i) => {
                proof {
                    self.lemma_index_of(i as int);
                }
                Some(&self.values[i])
            },
            None => None,
        }
    }

    /// Stores `meta` under `key`, replacing what was stored there.
    pub fn insert(&mut self, key: (u32, u32), meta: SlideMeta)
        ensures
            final(self)@ == old(self)@.insert(key, meta@),
    {
        proof {
            use_type_invariant(&*self);
        }
        let pos = self.position(&key);
        let mut whole = SlideMetaMap::new();
        std::mem::swap(&mut whole, self);
        proof {
            use_type_invariant(&whole);
        }
        let SlideMetaMap { mut keys, mut values } = whole;
        let ghost old_keys = keys@;
        let ghost old_values = values@;
        assert(old(self)@ == Map::new(
            |k: (u32, u32)| old_keys.contains(k),
            |k: (u32, u32)| old_values[old_keys.index_of(k)]@,
        ));
        match pos {
            Some(i) => {
                values.set(i, meta);
                proof {
                    assert(keys@.no_duplicates());
                }
                let m = SlideMetaMap { keys, values };
                proof {
                    assert forall|k: (u32, u32)| #[trigger] m@.contains_key(k) implies m@[k] == old(
                        self,
                    )@.insert(key, meta@)[k] by {
                        let j = m.keys@.index_of(k);
                        m.lemma_index_of(j);
                        if k != key {
                            let jj = old_keys.index_of(k);
                            assert(old_keys[jj] == k);
                            assert(m.keys@[jj] == k);
                            m.lemma_index_of(jj);
                        } else {
                            m.lemma_index_of(i as int);
                        }
                    }
                    assert(m@ =~= old(self)@.insert(key, meta@));
                }
                *self = m;
            },
            None => {
                keys.push(key);
                values.push(meta);
                proof {
                    assert forall|a: int, b: int|
                        0 <= a < keys.len() && 0 <= b < keys.len() && a != b implies keys@[a]
                        != keys@[b] by {
                        if a < old_keys.len() && b < old_keys.len() {
                            assert(old_keys[a] == keys@[a] && old_keys[b] == keys@[b]);
                        } else if a == old_keys.len() {
                            assert(old_keys.contains(keys@[b]) || b == a);
                        } else {
                            assert(old_keys.contains(keys@[a]) || b == a);
                        }
                    }
                }
                let m = SlideMetaMap { keys, values };
                proof {
                    assert forall|k: (u32, u32)| #[trigger] m@.contains_key(k) implies m@[k] == old(
                        self,
                    )@.insert(key, meta@)[k] by {
                        let j = m.keys@.index_of(k);
                        m.lemma_index_of(j);
                        if k != key {
                            let jj = old_keys.index_of(k);
                            assert(old_keys[jj] == k);
                            assert(m.keys@[jj] == k);
                            m.lemma_index_of(jj);
                        } else {
                            m.lemma_index_of(old_keys.len() as int);
                        }
                    }
                    assert forall|k: (u32, u32)| #[trigger] m.keys@.contains(k) <==> (
                    old_keys.contains(k) || k == key) by {
                        if old_keys.contains(k) {
                            let jj = old_keys.index_of(k);
                            assert(m.keys@[jj] == k);
                        }
                        if k == key {
                            assert(m.keys@[old_keys.len() as int] == k);
                        }
                    }
                    assert(m@ =~= old(self)@.insert(key, meta@));
                }
                *self = m;
            },
        }
    }
}

impl View for SlideMetaMap {
    type V = Map<(u32, u32), MetaView>;

    open spec fn view(&self) -> Map<(u32, u32), MetaView> {
        self.as_map()
    }
}


/// Whether `a` comes before `b` in deck order: by chapter, then by slide.
pub open spec fn key_lt(a: SlideKey, b: SlideKey) -> bool {
    a.chapter < b.chapter || (a.chapter == b.chapter && a.slide < b.slide)
}

/// Index of the first slide whose chapter number is greater than `ch`.
pub open spec fn position_chapter_above(s: Seq<SlideKey>, ch: u32) -> Option<int>
    decreases s.len(),
{
    if s.len() == 0 {
        None
    } else if s[0].chapter > ch {
        Some(0)
    } else {
        match position_chapter_above(s.drop_first(), ch) {
            Some(i) => Some(i + 1),
            None => None,
        }
    }
}

/// Index of the last slide whose chapter number is smaller than `ch`.
pub open spec fn rposition_chapter_below(s: Seq<SlideKey>, ch: u32) -> Option<int>
    decreases s.len(),
{
    if s.len() == 0 {
        None
    } else if s.last().chapter < ch {
        Some(s.len() - 1)
    } else {
        rposition_chapter_below(s.drop_last(), ch)
    }
}

/// The first slide of a later chapter, as `position_chapter_above` finds it.
pub proof fn lemma_position_chapter_above(s: Seq<SlideKey>, ch: u32)
    ensures
        match position_chapter_above(s, ch) {
            Some(i) => 0 <= i < s.len() && s[i].chapter > ch && forall|j: int|
                0 <= j < i ==> s[j].chapter <= ch,
            None => forall|j: int| 0 <= j < s.len() ==> s[j].chapter <= ch,
        },
    decreases s.len(),
{
    if s.len() > 0 && s[0].chapter <= ch {
        let t = s.drop_first();
        lemma_position_chapter_above(t, ch);
        assert forall|j: int| 1 <= j < s.len() implies s[j] == t[j - 1] by {}
    }
}

/// The last slide of an earlier chapter, as `rposition_chapter_below` finds it.
pub proof fn lemma_rposition_chapter_below(s: Seq<SlideKey>, ch: u32)
    ensures
        match rposition_chapter_below(s, ch) {
            Some(i) => 0 <= i < s.len() && s[i].chapter < ch && forall|j: int|
                i < j < s.len() ==> s[j].chapter >= ch,
            None => forall|j: int| 0 <= j < s.len() ==> s[j].chapter >= ch,
        },
    decreases s.len(),
{
    if s.len() > 0 && s.last().chapter >= ch {
        let t = s.drop_last();
        lemma_rposition_chapter_below(t, ch);
        assert forall|j: int| 0 <= j < t.len() implies s[j] == t[j] by {}
    }
}

/// An optional layer index, widened to an integer.
pub open spec fn opt_int(o: Option<usize>) -> Option<int> {
    match o {
        Some(i) => Some(i as int),
        None => None,
    }
}

/// The slides of a deck in navigation order, with their metadata.
pub struct SlideCollection {
    pub slides: Vec<SlideKey>,
    pub metadata: SlideMetaMap,
}

/// The layer after `layer`, if the deck has one.
pub open spec fn next_slide_spec(len: nat, layer: int) -> Option<int> {
    if layer + 1 < len {
        Some(layer + 1)
    } else {
        None
    }
}

/// The layer before `layer`, unless `layer` is the first.
pub open spec fn prev_slide_spec(layer: int) -> Option<int> {
    if layer >= 1 {
        Some(layer - 1)
    } else {
        None
    }
}

/// Whether `layer` opens its chapter.
pub open spec fn is_first_of_chapter_spec(s: Seq<SlideKey>, layer: int) -> bool {
    0 <= layer < s.len() && (layer == 0 || s[layer].chapter != s[layer - 1].chapter)
}

/// Whether `layer` closes its chapter.
pub open spec fn is_last_of_chapter_spec(s: Seq<SlideKey>, layer: int) -> bool {
    0 <= layer < s.len() && (layer == s.len() - 1 || s[layer].chapter != s[layer + 1].chapter)
}

/// The first layer of a later chapter than the one of `layer`.
pub open spec fn next_chapter_spec(s: Seq<SlideKey>, layer: int) -> Option<int> {
    if 0 <= layer < s.len() {
        position_chapter_above(s, s[layer].chapter)
    } else {
        None
    }
}

/// The last layer of an earlier chapter than the one of `layer`.
pub open spec fn prev_chapter_spec(s: Seq<SlideKey>, layer: int) -> Option<int> {
    if 0 <= layer < s.len() {
        rposition_chapter_below(s, s[layer].chapter)
    } else {
        None
    }
}

/// Whether chapter numbers never decrease along the deck.
pub open spec fn chapters_non_decreasing(s: Seq<SlideKey>) -> bool {
    forall|i: int, j: int| 0 <= i <= j < s.len() ==> s[i].chapter <= s[j].chapter
}

impl SlideCollection {
    /// Number of slides.
    pub fn len(&self) -> (r: usize)
        ensures
            r == self.slides.len(),
    {
        self.slides.len()
    }

    /// Chapter number of the slide at `layer`.
    pub fn chapter_of(&self, layer: usize) -> (r: Option<u32>)
        ensures
            r == (if layer < self.slides.len() {
                Some(self.slides@[layer as int].chapter)
            } else {
                None
            }),
    {
        if layer < self.slides.len() {
            Some(self.slides[layer].chapter)
        } else {
            None
        }
    }

    /// Slide number of the slide at `layer`.
    pub fn slide_num_of(&self, layer: usize) -> (r: Option<u32>)
        ensures
            r == (if layer < self.slides.len() {
                Some(self.slides@[layer as int].slide)
            } else {
                None
            }),
    {
        if layer < self.slides.len() {
            Some(self.slides[layer].slide)
        } else {
            None
        }
    }

    /// Metadata of the slide at `layer`, when the slide exists and has some.
    pub fn meta(&self, layer: usize) -> (r: Option<&SlideMeta>)
        ensures
            r is Some == (layer < self.slides.len() && self.metadata@.contains_key(
                (self.slides@[layer as int].chapter, self.slides@[layer as int].slide),
            )),
            r matches Some(m) ==> m@ == self.metadata@[(
                self.slides@[layer as int].chapter,
                self.slides@[layer as int].slide,
            )],
    {
        if layer >= self.slides.len() {
            return None;
        }
        let key = self.slides[layer];
        self.metadata.get(&(key.chapter, key.slide))
    }

    /// Whether the slide at `layer` is the first of its chapter.
    pub fn is_first_of_chapter(&self, layer: usize) -> (r: bool)
        ensures
            r == is_first_of_chapter_spec(self.slides@, layer as int),
    {
        if layer >= self.slides.len() {
            return false;
        }
        layer == 0 || self.slides[layer].chapter != self.slides[layer - 1].chapter
    }

    /// Whether the slide at `layer` is the last of its chapter.
    pub fn is_last_of_chapter(&self, layer: usize) -> (r: bool)
        ensures
            r == is_last_of_chapter_spec(self.slides@, layer as int),
    {
        if layer >= self.slides.len() {
            return false;
        }
        layer == self.slides.len() - 1 || self.slides[layer].chapter != self.slides[layer
            + 1].chapter
    }

    /// The layer after `layer`.
    pub fn next_slide(&self, layer: usize) -> (r: Option<usize>)
        ensures
            opt_int(r) == next_slide_spec(self.slides.len() as nat, layer as int),
    {
        if layer < self.slides.len() && layer + 1 < self.slides.len() {
            Some(layer + 1)
        } else {
            None
        }
    }

    /// The layer before `layer`.
    pub fn prev_slide(&self, layer: usize) -> (r: Option<usize>)
        ensures
            opt_int(r) == prev_slide_spec(layer as int),
    {
        if layer >= 1 {
            Some(layer - 1)
        } else {
            None
        }
    }

    /// The first slide of the nearest later chapter.
    pub fn next_chapter(&self, layer: usize) -> (r: Option<usize>)
        ensures
            opt_int(r) == next_chapter_spec(self.slides@, layer as int),
    {
        if layer >= self.slides.len() {
            return None;
        }
        let ch = self.slides[layer].chapter;
        proof {
            lemma_position_chapter_above(self.slides@, ch);
        }
        let mut i: usize = 0;
        while i < self.slides.len()
            invariant
                0 <= i <= self.slides.len(),
                forall|j: int| 0 <= j < i ==> self.slides@[j].chapter <= ch,
                ch == self.slides@[layer as int].chapter,
                layer < self.slides.len(),
                match position_chapter_above(self.slides@, ch) {
                    Some(p) => 0 <= p < self.slides.len() && self.slides@[p].chapter > ch
                        && forall|j: int| 0 <= j < p ==> self.slides@[j].chapter <= ch,
                    None => forall|j: int|
                        0 <= j < self.slides.len() ==> self.slides@[j].chapter <= ch,
                },
            decreases self.slides.len() - i,
        {
            if self.slides[i].chapter > ch {
                return Some(i);
            }
            i += 1;
        }
        None
    }

    /// The last slide of the nearest earlier chapter.
    pub fn prev_chapter(&self, layer: usize) -> (r: Option<usize>)
        ensures
            opt_int(r) == prev_chapter_spec(self.slides@, layer as int),
    {
        if layer >= self.slides.len() {
            return None;
        }
        let ch = self.slides[layer].chapter;
        proof {
            lemma_rposition_chapter_below(self.slides@, ch);
        }
        let mut i: usize = self.slides.len();
        while i > 0
            invariant
                0 <= i <= self.slides.len(),
                forall|j: int| i <= j < self.slides.len() ==> self.slides@[j].chapter >= ch,
                ch == self.slides@[layer as int].chapter,
                layer < self.slides.len(),
                match rposition_chapter_below(self.slides@, ch) {
                    Some(p) => 0 <= p < self.slides.len() && self.slides@[p].chapter < ch
                        && forall|j: int| p < j < self.slides.len() ==> self.slides@[j].chapter >= ch,
                    None => forall|j: int|
                        0 <= j < self.slides.len() ==> self.slides@[j].chapter >= ch,
                },
            decreases i,
        {
            if self.slides[i - 1].chapter < ch {
                return Some(i - 1);
            }
            i -= 1;
        }
        None
    }
}

/// The slide that a file name denotes: `{chapter}_{slide}.png`, both numbers
/// as `u32::from_str` reads them and exactly one `_` in the stem.
pub open spec fn slide_filename_spec(name: Seq<char>) -> Option<SlideKey> {
    if ends_with(name, ".png"@) {
        let stem = name.take(name.len() - 4);
        let k = find_char(stem, '_');
        if count_char(stem, '_') == 1 {
            match (parse_u32_spec(stem.take(k as int)), parse_u32_spec(stem.skip(k as int + 1))) {
                (Some(c), Some(s)) => Some(SlideKey { chapter: c, slide: s }),
                _ => None,
            }
        } else {
            None
        }
    } else {
        None
    }
}

/// Reads a slide file name of the form `{chapter}_{slide}.png`.
pub fn parse_slide_filename(name: &str) -> (r: Option<SlideKey>)
    ensures
        r == slide_filename_spec(name@),
{
    proof {
        reveal_strlit(".png");
    }
    let v = chars_of(name);
    let suffix = chars_of(".png");
    assert(suffix@ =~= seq!['.', 'p', 'n', 'g']);
    if v.len() < 4 {
        return None;
    }
    let mut i: usize = 0;
    let base = v.len() - 4;
    while i < 4
        invariant
            0 <= i <= 4,
            base == v.len() - 4,
            suffix@ == ".png"@,
            suffix@ == seq!['.', 'p', 'n', 'g'],
            v@ == name@,
            forall|j: int| 0 <= j < i ==> v@[base + j] == suffix@[j],
        decreases 4 - i,
    {
        if v[base + i] != suffix[i] {
            assert(v@.skip(base as int)[i as int] != ".png"@[i as int]);
            return None;
        }
        i += 1;
    }
    assert(v@.skip(base as int) =~= ".png"@);
    let stem = sub_chars(&v, 0, base);
    assert(stem@ =~= name@.take(name@.len() - 4));
    if count_char_in(&stem, '_') != 1 {
        return None;
    }
    let k = find_char_in(&stem, '_');
    proof {
        lemma_find_char_bound(stem@, '_');
        if k >= stem.len() {
            lemma_count_char_absent(stem@, '_');
        }
    }
    if k >= stem.len() {
        return None;
    }
    let first = sub_chars(&stem, 0, k);
    let second = sub_chars(&stem, k + 1, stem.len());
    assert(first@ =~= stem@.take(k as int));
    assert(second@ =~= stem@.skip(k + 1));
    match (parse_u32_chars(&first), parse_u32_chars(&second)) {
        (Some(c), Some(s)) => Some(SlideKey { chapter: c, slide: s }),
        _ => None,
    }
}

/// The terminal text for a slide: a chapter line, a slide line, and the
/// presenter notes on the lines after them when there are any.
pub open spec fn slide_display_spec(m: MetaView) -> Seq<char> {
    let head = "--- Chapter "@ + decimal(m.chapter_num as nat) + ": "@ + m.chapter_name
        + " ---\nSlide "@ + decimal(m.chapter_num as nat) + "_"@ + decimal(m.slide_num as nat)
        + ": "@ + m.slide_name;
    if m.presenter_notes.len() > 0 {
        head + "\n"@ + m.presenter_notes
    } else {
        head
    }
}

/// `String::push`: appends `ch` to the end of the string. (std panics only
/// when the new capacity would exceed `isize::MAX` bytes; that bound is not
/// stated here, as for `Vec::push` in vstd.)
pub assume_specification[ String::push ](s: &mut String, ch: char)
    ensures
        final(s)@ == old(s)@.push(ch),
;

/// A `String` holding the characters of `v`.
pub(crate) fn string_from_chars(v: &Vec<char>) -> (s: String)
    ensures
        s@ == v@,
{
    let mut s = String::new();
    let mut i: usize = 0;
    while i < v.len()
        invariant
            0 <= i <= v.len(),
            s@ == v@.take(i as int),
        decreases v.len() - i,
    {
        s.push(v[i]);
        i += 1;
        assert(s@ =~= v@.take(i as int));
    }
    assert(v@.take(v.len() as int) =~= v@);
    s
}

/// Formats a slide's metadata for the terminal.
pub fn format_slide_display(meta: &SlideMeta, _layer: usize, _total: usize) -> (r: String)
    ensures
        r@ == slide_display_spec(meta@),
{
    let mut out: Vec<char> = Vec::new();
    push_str_chars(&mut out, "--- Chapter ");
    push_decimal(&mut out, meta.chapter_num);
    push_str_chars(&mut out, ": ");
    push_str_chars(&mut out, meta.chapter_name.as_str());
    push_str_chars(&mut out, " ---\nSlide ");
    push_decimal(&mut out, meta.chapter_num);
    push_str_chars(&mut out, "_");
    push_decimal(&mut out, meta.slide_num);
    push_str_chars(&mut out, ": ");
    push_str_chars(&mut out, meta.slide_name.as_str());
    let notes = chars_of(meta.presenter_notes.as_str());
    if notes.len() > 0 {
        push_str_chars(&mut out, "\n");
        push_chars(&mut out, &notes);
    }
    string_from_chars(&out)
}


/// The state of the presenter-notes reader between two lines.
pub struct NotesState {
    pub map: Map<(u32, u32), MetaView>,
    pub chapter_name: Seq<char>,
    pub pending: Option<(u32, u32, Seq<char>)>,
    pub notes: Seq<char>,
}

/// The reader's state before the first line.
pub open spec fn notes_start() -> NotesState {
    NotesState { map: Map::empty(), chapter_name: seq![], pending: None, notes: seq![] }
}

/// Completes the pending slide entry, if there is one: it is stored with the
/// current chapter name and the trimmed note text. The note text restarts in
/// any case, so text that follows no slide header belongs to no slide.
pub open spec fn flush_spec(st: NotesState) -> NotesState {
    match st.pending {
        Some((c, s, name)) => NotesState {
            map: st.map.insert(
                (c, s),
                MetaView {
                    chapter_num: c,
                    slide_num: s,
                    chapter_name: st.chapter_name,
                    slide_name: name,
                    presenter_notes: trim(st.notes),
                },
            ),
            chapter_name: st.chapter_name,
            pending: None,
            notes: seq![],
        },
        None => NotesState { notes: seq![], ..st },
    }
}

/// The chapter name in the text after `"# "`: `{number}: {name}`, the number
/// read after trimming, the name trimmed.
pub open spec fn chapter_header_name(rest: Seq<char>) -> Option<Seq<char>> {
    let k = find_char(rest, ':');
    if k < rest.len() && parse_u32_spec(trim(rest.take(k as int))) is Some {
        Some(trim(rest.skip(k as int + 1)))
    } else {
        None
    }
}

/// The slide entry in the text after `"## "`: `{chapter}_{slide}: {title}`,
/// the title trimmed.
pub open spec fn slide_header(rest: Seq<char>) -> Option<(u32, u32, Seq<char>)> {
    let k = find_char(rest, ':');
    if k < rest.len() {
        let key = rest.take(k as int);
        let j = find_char(key, '_');
        if count_char(key, '_') == 1 {
            match (parse_u32_spec(key.take(j as int)), parse_u32_spec(key.skip(j as int + 1))) {
                (Some(c), Some(s)) => Some((c, s, trim(rest.skip(k as int + 1)))),
                _ => None,
            }
        } else {
            None
        }
    } else {
        None
    }
}

/// Whether `line` is a chapter header line.
pub open spec fn is_chapter_line(line: Seq<char>) -> bool {
    starts_with(line, seq!['#', ' '])
}

/// Whether `line` is a slide header line.
pub open spec fn is_slide_line(line: Seq<char>) -> bool {
    starts_with(line, seq!['#', '#', ' '])
}

/// The reader's state after one more line.
pub open spec fn notes_step(st: NotesState, line: Seq<char>) -> NotesState {
    if is_chapter_line(line) {
        let f = flush_spec(st);
        match chapter_header_name(line.skip(2)) {
            Some(n) => NotesState { map: f.map, chapter_name: n, pending: f.pending, notes: f.notes },
            None => f,
        }
    } else if is_slide_line(line) {
        let f = flush_spec(st);
        match slide_header(line.skip(3)) {
            Some(p) => NotesState {
                map: f.map,
                chapter_name: f.chapter_name,
                pending: Some(p),
                notes: f.notes,
            },
            None => f,
        }
    } else {
        NotesState {
            map: st.map,
            chapter_name: st.chapter_name,
            pending: st.pending,
            notes: st.notes + line.push('\n'),
        }
    }
}

/// The reader's state after the lines `ls`.
pub open spec fn notes_fold(ls: Seq<Seq<char>>) -> NotesState
    decreases ls.len(),
{
    if ls.len() == 0 {
        notes_start()
    } else {
        notes_step(notes_fold(ls.drop_last()), ls.last())
    }
}

/// The slide entries of a presenter-notes file.
pub open spec fn presenter_notes_spec(content: Seq<char>) -> Map<(u32, u32), MetaView> {
    flush_spec(notes_fold(lines(content))).map
}

/// The value of a pending slide entry.
pub open spec fn pending_view(p: Option<(u32, u32, Vec<char>)>) -> Option<(u32, u32, Seq<char>)> {
    match p {
        Some((c, s, n)) => Some((c, s, n@)),
        None => None,
    }
}

/// The value of the reader's working variables.
pub open spec fn notes_state_of(
    result: SlideMetaMap,
    chapter_name: Seq<char>,
    pending: Option<(u32, u32, Vec<char>)>,
    notes: Seq<char>,
) -> NotesState {
    NotesState { map: result@, chapter_name, pending: pending_view(pending), notes }
}

/// Stores the pending slide entry, if there is one, and restarts the note text.
fn flush_entry(
    result: &mut SlideMetaMap,
    pending: &mut Option<(u32, u32, Vec<char>)>,
    notes: &mut Vec<char>,
    chapter_name: &Vec<char>,
)
    ensures
        notes_state_of(*final(result), chapter_name@, *final(pending), final(notes)@) == flush_spec(
            notes_state_of(*old(result), chapter_name@, *old(pending), old(notes)@),
        ),
{
    if let Some((ch, sl, slide_name)) = pending.take() {
        let text = trim_chars(notes);
        *notes = Vec::new();
        result.insert(
            (ch, sl),
            SlideMeta {
                chapter_num: ch,
                slide_num: sl,
                chapter_name: string_from_chars(chapter_name),
                slide_name: string_from_chars(&slide_name),
                presenter_notes: string_from_chars(&text),
            },
        );
        assert(notes@ =~= seq![]);
    } else {
        *notes = Vec::new();
        assert(notes@ =~= seq![]);
    }
}

/// Reads a presenter-notes file: `# {n}: {chapter}` lines name the chapter,
/// `## {c}_{s}: {title}` lines open a slide entry, and the lines after a slide
/// header up to the next header form that entry's notes, trimmed; text after a
/// chapter header or before any header belongs to no slide. A later entry for
/// the same slide replaces an earlier one.
pub fn parse_presenter_notes(content: &str) -> (r: SlideMetaMap)
    ensures
        r@ == presenter_notes_spec(content@),
{
    let text = chars_of(content);
    let ls = split_lines(&text);
    let ghost all = lines(content@);
    let mut result = SlideMetaMap::new();
    let mut chapter_name: Vec<char> = Vec::new();
    let mut pending: Option<(u32, u32, Vec<char>)> = None;
    let mut pending_notes: Vec<char> = Vec::new();
    assert(all.take(0) =~= Seq::<Seq<char>>::empty());
    assert(chapter_name@ =~= seq![]);
    assert(pending_notes@ =~= seq![]);
    let mut i: usize = 0;
    while i < ls.len()
        invariant
            0 <= i <= ls.len(),
            ls.len() == all.len(),
            forall|j: int| 0 <= j < ls.len() ==> #[trigger] ls[j]@ == all[j],
            notes_state_of(result, chapter_name@, pending, pending_notes@) == notes_fold(
                all.take(i as int),
            ),
        decreases ls.len() - i,
    {
        let line = &ls[i];
        let ghost before = notes_state_of(result, chapter_name@, pending, pending_notes@);
        proof {
            assert(all.take(i + 1).drop_last() =~= all.take(i as int));
            assert(all.take(i + 1).last() == line@);
        }
        if line.len() >= 2 && line[0] == '#' && line[1] == ' ' {
            assert(line@.take(2) =~= seq!['#', ' ']);
            flush_entry(&mut result, &mut pending, &mut pending_notes, &chapter_name);
            let rest = sub_chars(line, 2, line.len());
            assert(rest@ =~= line@.skip(2));
            let k = find_char_in(&rest, ':');
            if k < rest.len() {
                let num = sub_chars(&rest, 0, k);
                let num_t = trim_chars(&num);
                assert(num@ =~= rest@.take(k as int));
                if parse_u32_chars(&num_t).is_some() {
                    let name = sub_chars(&rest, k + 1, rest.len());
                    assert(name@ =~= rest@.skip(k + 1));
                    chapter_name = trim_chars(&name);
                }
            }
        } else if line.len() >= 3 && line[0] == '#' && line[1] == '#' && line[2] == ' ' {
            assert(line@.take(3) =~= seq!['#', '#', ' ']);
            assert(!is_chapter_line(line@)) by {
                assert(line@.take(2)[1] == '#');
            }
            flush_entry(&mut result, &mut pending, &mut pending_notes, &chapter_name);
            let rest = sub_chars(line, 3, line.len());
            assert(rest@ =~= line@.skip(3));
            let k = find_char_in(&rest, ':');
            if k < rest.len() {
                let key = sub_chars(&rest, 0, k);
                assert(key@ =~= rest@.take(k as int));
                if count_char_in(&key, '_') == 1 {
                    let j = find_char_in(&key, '_');
                    proof {
                        lemma_find_char_bound(key@, '_');
                        if j >= key.len() {
                            lemma_count_char_absent(key@, '_');
                        }
                    }
                    let a = sub_chars(&key, 0, j);
                    let b = sub_chars(&key, j + 1, key.len());
                    assert(a@ =~= key@.take(j as int));
                    assert(b@ =~= key@.skip(j + 1));
                    match (parse_u32_chars(&a), parse_u32_chars(&b)) {
                        (Some(c), Some(s)) => {
                            let name = sub_chars(&rest, k + 1, rest.len());
                            assert(name@ =~= rest@.skip(k + 1));
                            pending = Some((c, s, trim_chars(&name)));
                        },
                        _ => {},
                    }
                }
            }
        } else {
            proof {
                if line@.len() >= 2 {
                    if line@.take(2) == seq!['#', ' '] {
                        assert(line@.take(2)[0] == line@[0] && line@.take(2)[1] == line@[1]);
                    }
                }
                if line@.len() >= 3 {
                    if line@.take(3) == seq!['#', '#', ' '] {
                        assert(line@.take(3)[0] == line@[0] && line@.take(3)[1] == line@[1]
                            && line@.take(3)[2] == line@[2]);
                    }
                }
            }
            push_chars(&mut pending_notes, line);
            pending_notes.push('\n');
            assert(pending_notes@ =~= before.notes + line@.push('\n'));
        }
        i += 1;
    }
    assert(all.take(ls.len() as int) =~= all);
    flush_entry(&mut result, &mut pending, &mut pending_notes, &chapter_name);
    result
}


/// Why a directory listing does not make a deck.
#[derive(Debug, Clone, Copy, PartialEq, Eq, Structural)]
pub enum SlideDirError {
    /// No file name has the `{chapter}_{slide}.png` form.
    NoSlides,
    /// Two file names denote this slide (the first such slide in deck order).
    DuplicateSlide(SlideKey),
}

/// The message that reports `e` for the directory shown as `dir`.
pub open spec fn dir_error_message_spec(e: SlideDirError, dir: Seq<char>) -> Seq<char> {
    match e {
        SlideDirError::NoSlides => "No PNG files matching 'chapter_slide.png' found in '"@ + dir
            + "'"@,
        SlideDirError::DuplicateSlide(k) => "Duplicate slide: "@ + slide_filename_of(k),
    }
}

/// The message that reports `e` for the directory shown as `dir`.
pub fn dir_error_message(e: SlideDirError, dir: &str) -> (r: String)
    ensures
        r@ == dir_error_message_spec(e, dir@),
{
    let mut out: Vec<char> = Vec::new();
    match e {
        SlideDirError::NoSlides => {
            push_str_chars(&mut out, "No PNG files matching 'chapter_slide.png' found in '");
            push_str_chars(&mut out, dir);
            push_str_chars(&mut out, "'");
        },
        SlideDirError::DuplicateSlide(k) => {
            push_str_chars(&mut out, "Duplicate slide: ");
            push_decimal(&mut out, k.chapter);
            push_str_chars(&mut out, "_");
            push_decimal(&mut out, k.slide);
            push_str_chars(&mut out, ".png");
        },
    }
    string_from_chars(&out)
}

/// The first slide image whose width and height differ from those of the
/// first image; all slides of a deck must have one size.
pub fn first_size_mismatch(sizes: &Vec<(u32, u32)>) -> (r: Option<usize>)
    ensures
        match r {
            Some(i) => 0 < i < sizes.len() && sizes[i as int] != sizes[0] && forall|j: int|
                0 <= j < i ==> #[trigger] sizes[j] == sizes[0],
            None => forall|j: int| 0 <= j < sizes.len() ==> #[trigger] sizes[j] == sizes[0],
        },
{
    let mut i: usize = 1;
    while i < sizes.len()
        invariant
            1 <= i,
            forall|j: int| 0 <= j < i && j < sizes.len() ==> #[trigger] sizes[j] == sizes[0],
        decreases sizes.len() - i,
    {
        if sizes[i].0 != sizes[0].0 || sizes[i].1 != sizes[0].1 {
            return Some(i);
        }
        i += 1;
    }
    None
}

/// The slides that the file names denote, in listing order.
pub open spec fn listed_keys(names: Seq<Seq<char>>) -> Seq<SlideKey>
    decreases names.len(),
{
    if names.len() == 0 {
        seq![]
    } else {
        let rest = listed_keys(names.drop_last());
        match slide_filename_spec(names.last()) {
            Some(k) => rest.push(k),
            None => rest,
        }
    }
}

/// How often `k` occurs in `s`.
pub open spec fn key_count(s: Seq<SlideKey>, k: SlideKey) -> nat
    decreases s.len(),
{
    if s.len() == 0 {
        0
    } else {
        key_count(s.drop_last(), k) + if s.last() == k { 1nat } else { 0nat }
    }
}

/// Whether `k` comes after `prev` (every slide comes after `None`).
pub open spec fn after(k: SlideKey, prev: Option<SlideKey>) -> bool {
    match prev {
        Some(p) => key_lt(p, k),
        None => true,
    }
}

/// How many entries of `s` come after `prev`.
pub open spec fn count_after(s: Seq<SlideKey>, prev: Option<SlideKey>) -> nat
    decreases s.len(),
{
    if s.len() == 0 {
        0
    } else {
        count_after(s.drop_last(), prev) + if after(s.last(), prev) { 1nat } else { 0nat }
    }
}

/// The metadata that a deck gives slide `k`: its entry in the presenter notes,
/// or else `Chapter {c}`, `Slide {c}_{s}` and no notes.
pub open spec fn deck_meta(k: SlideKey, notes: Map<(u32, u32), MetaView>) -> MetaView {
    if notes.contains_key((k.chapter, k.slide)) {
        let m = notes[(k.chapter, k.slide)];
        MetaView {
            chapter_num: k.chapter,
            slide_num: k.slide,
            chapter_name: m.chapter_name,
            slide_name: m.slide_name,
            presenter_notes: m.presenter_notes,
        }
    } else {
        MetaView {
            chapter_num: k.chapter,
            slide_num: k.slide,
            chapter_name: "Chapter "@ + decimal(k.chapter as nat),
            slide_name: "Slide "@ + decimal(k.chapter as nat) + "_"@ + decimal(k.slide as nat),
            presenter_notes: seq![],
        }
    }
}

/// The metadata of the deck `keys`.
pub open spec fn deck_meta_map(keys: Seq<SlideKey>, notes: Map<(u32, u32), MetaView>) -> Map<
    (u32, u32),
    MetaView,
>
    decreases keys.len(),
{
    if keys.len() == 0 {
        Map::empty()
    } else {
        let k = keys.last();
        deck_meta_map(keys.drop_last(), notes).insert((k.chapter, k.slide), deck_meta(k, notes))
    }
}

/// The presenter notes that an optional notes file gives.
pub open spec fn notes_of(text: Option<Seq<char>>) -> Map<(u32, u32), MetaView> {
    match text {
        Some(t) => presenter_notes_spec(t),
        None => Map::empty(),
    }
}

/// Whether `keys` is in strictly increasing deck order.
pub open spec fn strictly_sorted(keys: Seq<SlideKey>) -> bool {
    forall|i: int, j: int| 0 <= i < j < keys.len() ==> key_lt(keys[i], keys[j])
}

/// Whether `k` is the first slide, in deck order, that `ks` lists twice or more.
pub open spec fn first_duplicate(ks: Seq<SlideKey>, k: SlideKey) -> bool {
    &&& key_count(ks, k) >= 2
    &&& forall|k2: SlideKey| key_lt(k2, k) ==> key_count(ks, k2) <= 1
}

/// A slide that is not listed is counted zero times.
pub proof fn lemma_key_count_absent(s: Seq<SlideKey>, k: SlideKey)
    requires
        forall|t: int| 0 <= t < s.len() ==> s[t] != k,
    ensures
        key_count(s, k) == 0,
    decreases s.len(),
{
    if s.len() > 0 {
        lemma_key_count_absent(s.drop_last(), k);
    }
}

/// A listed slide is counted at least once.
pub proof fn lemma_key_count_present(s: Seq<SlideKey>, k: SlideKey)
    requires
        s.contains(k),
    ensures
        key_count(s, k) >= 1,
    decreases s.len(),
{
    if s.last() != k {
        let t = choose|t: int| 0 <= t < s.len() && s[t] == k;
        assert(s.drop_last()[t] == k);
        lemma_key_count_present(s.drop_last(), k);
    }
}

/// Appending the least listed slide after `prev` to the slides up to `prev`
/// gives the slides up to that one.
proof fn lemma_push_least(ks: Seq<SlideKey>, done: Seq<SlideKey>, prev: Option<SlideKey>, b: SlideKey)
    requires
        forall|k: SlideKey| (ks.contains(k) && !after(k, prev)) <==> done.contains(k),
        ks.contains(b),
        after(b, prev),
        forall|t: int| 0 <= t < ks.len() && after(ks[t], prev) ==> !key_lt(#[trigger] ks[t], b),
    ensures
        forall|k: SlideKey| (ks.contains(k) && !after(k, Some(b))) <==> done.push(b).contains(k),
{
    let nd = done.push(b);
    assert forall|k: SlideKey| (ks.contains(k) && !after(k, Some(b))) <==> nd.contains(k) by {
        if nd.contains(k) {
            let t = choose|t: int| 0 <= t < nd.len() && nd[t] == k;
            if t < done.len() {
                assert(done[t] == k);
                assert(done.contains(k));
            }
        }
        if ks.contains(k) && !after(k, Some(b)) {
            if after(k, prev) {
                let t = choose|t: int| 0 <= t < ks.len() && ks[t] == k;
                assert(!key_lt(ks[t], b));
                assert(k == b);
                assert(nd[done.len() as int] == k);
            } else {
                let t = choose|t: int| 0 <= t < done.len() && done[t] == k;
                assert(nd[t] == k);
            }
        }
    }
}

/// Fewer listed slides come after a listed slide `b` than after `prev`, when `b` comes after `prev`.
pub proof fn lemma_count_after_decreases(s: Seq<SlideKey>, prev: Option<SlideKey>, b: SlideKey)
    requires
        s.contains(b),
        after(b, prev),
    ensures
        count_after(s, Some(b)) < count_after(s, prev),
    decreases s.len(),
{
    lemma_count_after_le(s.drop_last(), prev, b);
    if s.last() != b {
        let t = choose|t: int| 0 <= t < s.len() && s[t] == b;
        assert(s.drop_last()[t] == b);
        lemma_count_after_decreases(s.drop_last(), prev, b);
    }
}

/// No more listed slides come after `b` than after `prev`, when `b` comes after `prev`.
pub proof fn lemma_count_after_le(s: Seq<SlideKey>, prev: Option<SlideKey>, b: SlideKey)
    requires
        after(b, prev),
    ensures
        count_after(s, Some(b)) <= count_after(s, prev),
    decreases s.len(),
{
    if s.len() > 0 {
        lemma_count_after_le(s.drop_last(), prev, b);
    }
}

/// The listed slides of one more file name.
pub proof fn lemma_listed_keys_step(names: Seq<Seq<char>>, i: int)
    requires
        0 <= i < names.len(),
    ensures
        listed_keys(names.take(i + 1)) == match slide_filename_spec(names[i]) {
            Some(k) => listed_keys(names.take(i)).push(k),
            None => listed_keys(names.take(i)),
        },
{
    assert(names.take(i + 1).drop_last() =~= names.take(i));
}

/// What a deck knows of each of its slides: its own chapter and slide numbers;
/// with a presenter-notes entry, that entry's chapter name, title and notes;
/// without one, the title `Slide {c}_{s}` that its file name `{c}_{s}.png`
/// gives, the chapter name `Chapter {c}` and no notes.
pub proof fn lemma_deck_slide_metadata(keys: Seq<SlideKey>, notes: Map<(u32, u32), MetaView>, i: int)
    requires
        strictly_sorted(keys),
        0 <= i < keys.len(),
    ensures
        ({
            let k = keys[i];
            let p = (k.chapter, k.slide);
            let m = deck_meta_map(keys, notes)[p];
            &&& deck_meta_map(keys, notes).contains_key(p)
            &&& m.chapter_num == k.chapter
            &&& m.slide_num == k.slide
            &&& notes.contains_key(p) ==> m.chapter_name == notes[p].chapter_name
                && m.slide_name == notes[p].slide_name && m.presenter_notes
                == notes[p].presenter_notes
            &&& !notes.contains_key(p) ==> m.slide_name + ".png"@ == "Slide "@ + slide_filename_of(k)
                && m.chapter_name == "Chapter "@ + slide_filename_of(k).take(
                find_char(slide_filename_of(k), '_') as int,
            ) && m.presenter_notes.len() == 0
        }),
{
    reveal_strlit("_");
    reveal_strlit(".png");
    lemma_deck_meta_map(keys, notes);
    let k = keys[i];
    assert(keys.contains(k));
    let a = decimal(k.chapter as nat);
    let b = decimal(k.slide as nat);
    let f = slide_filename_of(k);
    lemma_decimal_digits(k.chapter as nat);
    assert forall|j: int| 0 <= j < a.len() implies f[j] != '_' by {
        assert(f[j] == a[j]);
        assert(is_digit(a[j]));
    }
    assert(f[a.len() as int] == '_');
    lemma_find_char_at(f, '_', a.len() as int);
    assert(f.take(a.len() as int) =~= a);
    if !notes.contains_key((k.chapter, k.slide)) {
        let m = deck_meta(k, notes);
        assert(m.slide_name + ".png"@ =~= "Slide "@ + f);
    }
}

/// The metadata map of a sorted deck has exactly its slides as keys, each with
/// its metadata.
pub proof fn lemma_deck_meta_map(keys: Seq<SlideKey>, notes: Map<(u32, u32), MetaView>)
    requires
        strictly_sorted(keys),
    ensures
        forall|p: (u32, u32)| #[trigger]
            deck_meta_map(keys, notes).contains_key(p) <==> keys.contains(
                SlideKey { chapter: p.0, slide: p.1 },
            ),
        forall|i: int|
            0 <= i < keys.len() ==> #[trigger] deck_meta_map(keys, notes)[(
                keys[i].chapter,
                keys[i].slide,
            )] == deck_meta(keys[i], notes),
    decreases keys.len(),
{
    if keys.len() > 0 {
        let t = keys.drop_last();
        assert forall|a: int, c: int| 0 <= a < c < t.len() implies key_lt(t[a], t[c]) by {
            assert(t[a] == keys[a] && t[c] == keys[c]);
        }
        lemma_deck_meta_map(t, notes);
        let tm = deck_meta_map(t, notes);
        let m = deck_meta_map(keys, notes);
        let k = keys.last();
        assert(m == tm.insert((k.chapter, k.slide), deck_meta(k, notes)));
        assert forall|p: (u32, u32)| #[trigger] m.contains_key(p) <==> keys.contains(
            SlideKey { chapter: p.0, slide: p.1 },
        ) by {
            let q = SlideKey { chapter: p.0, slide: p.1 };
            assert(tm.contains_key(p) <==> t.contains(q));
            if keys.contains(q) {
                let j = choose|j: int| 0 <= j < keys.len() && keys[j] == q;
                if j < t.len() {
                    assert(t[j] == q);
                } else {
                    assert(q == k);
                    assert(p == (k.chapter, k.slide));
                }
            }
            if t.contains(q) {
                let j = choose|j: int| 0 <= j < t.len() && t[j] == q;
                assert(keys[j] == q);
            }
            if p == (k.chapter, k.slide) {
                assert(q == k);
                assert(keys[keys.len() - 1] == q);
            }
        }
        assert forall|i: int| 0 <= i < keys.len() implies #[trigger] m[(
            keys[i].chapter,
            keys[i].slide,
        )] == deck_meta(keys[i], notes) by {
            if i < keys.len() - 1 {
                assert(t[i] == keys[i]);
                assert(key_lt(keys[i], k));
                assert(tm[(t[i].chapter, t[i].slide)] == deck_meta(t[i], notes));
                assert((keys[i].chapter, keys[i].slide) != (k.chapter, k.slide));
            }
        }
    }
}

/// Turns a directory listing into a deck: the file names that have the
/// `{chapter}_{slide}.png` form, in deck order, each with its metadata from the
/// presenter notes or the defaults, and for each slide the index of its name in
/// `file_names`.
#[verifier::spinoff_prover]
pub fn index_slide_files(file_names: &Vec<String>, notes_text: Option<&str>) -> (r: Result<
    (Vec<SlideKey>, SlideMetaMap, Vec<usize>),
    SlideDirError,
>)
    ensures
        ({
            let names = file_names@.map_values(|n: String| n@);
            let ks = listed_keys(names);
            let notes = notes_of(
                match notes_text {
                    Some(t) => Some(t@),
                    None => None,
                },
            );
            &&& (r == Err::<(Vec<SlideKey>, SlideMetaMap, Vec<usize>), SlideDirError>(
                SlideDirError::NoSlides,
            )) <==> ks.len() == 0
            &&& (ks.len() > 0 && exists|k: SlideKey| key_count(ks, k) >= 2) <==> (r matches Err(
                SlideDirError::DuplicateSlide(_),
            ))
            &&& (r matches Err(SlideDirError::DuplicateSlide(k)) ==> first_duplicate(ks, k))
            &&& (r matches Ok((keys, meta, order)) ==> {
                &&& strictly_sorted(keys@)
                &&& forall|k: SlideKey| ks.contains(k) <==> keys@.contains(k)
                &&& forall|k: SlideKey| key_count(ks, k) <= 1
                &&& order.len() == keys.len()
                &&& forall|i: int|
                    0 <= i < order.len() ==> order[i] < names.len() && slide_filename_spec(
                        #[trigger] names[order[i] as int],
                    ) == Some(keys[i])
                &&& meta@ == deck_meta_map(keys@, notes)
                &&& forall|p: (u32, u32)| #[trigger]
                    meta@.contains_key(p) <==> keys@.contains(
                        SlideKey { chapter: p.0, slide: p.1 },
                    )
                &&& forall|i: int|
                    0 <= i < keys.len() ==> #[trigger] meta@[(keys[i].chapter, keys[i].slide)]
                        == deck_meta(keys[i], notes)
            })
        }),
{
    let ghost names = file_names@.map_values(|n: String| n@);
    // The slides that the listing names, with the index of each name.
    let mut parsed: Vec<SlideKey> = Vec::new();
    let mut idx: Vec<usize> = Vec::new();
    let mut i: usize = 0;
    while i < file_names.len()
        invariant
            0 <= i <= file_names.len(),
            names == file_names@.map_values(|n: String| n@),
            parsed@ == listed_keys(names.take(i as int)),
            idx.len() == parsed.len(),
            forall|j: int|
                0 <= j < idx.len() ==> idx[j] < i && slide_filename_spec(
                    #[trigger] names[idx[j] as int],
                ) == Some(parsed[j]),
        decreases file_names.len() - i,
    {
        proof {
            lemma_listed_keys_step(names, i as int);
        }
        match parse_slide_filename(file_names[i].as_str()) {
            Some(k) => {
                parsed.push(k);
                idx.push(i);
            },
            None => {},
        }
        i += 1;
    }
    assert(names.take(file_names.len() as int) =~= names);
    let ghost ks = parsed@;
    if parsed.len() == 0 {
        return Err(SlideDirError::NoSlides);
    }
    // Deck order: repeatedly the smallest listed slide after the previous one.
    let mut keys: Vec<SlideKey> = Vec::new();
    let mut order: Vec<usize> = Vec::new();
    let mut prev: Option<SlideKey> = None;
    let mut done = false;
    while !done
        invariant
            ks == parsed@,
            ks == listed_keys(names),
            names == file_names@.map_values(|n: String| n@),
            ks.len() > 0,
            idx.len() == parsed.len(),
            forall|j: int|
                0 <= j < idx.len() ==> idx[j] < names.len() && slide_filename_spec(
                    #[trigger] names[idx[j] as int],
                ) == Some(parsed[j]),
            strictly_sorted(keys@),
            prev is None <==> keys.len() == 0,
            prev matches Some(p) ==> keys.len() > 0 && p == keys@.last(),
            forall|k: SlideKey| (ks.contains(k) && !after(k, prev)) <==> keys@.contains(k),
            forall|k: SlideKey| keys@.contains(k) ==> key_count(ks, k) == 1,
            order.len() == keys.len(),
            forall|t: int|
                0 <= t < order.len() ==> order[t] < names.len() && slide_filename_spec(
                    #[trigger] names[order[t] as int],
                ) == Some(keys[t]),
            done ==> forall|k: SlideKey| ks.contains(k) ==> keys@.contains(k),
        decreases count_after(ks, prev) + if done { 0nat } else { 1nat },
    {
        let mut best: Option<(SlideKey, usize)> = None;
        let mut cnt: usize = 0;
        let mut j: usize = 0;
        while j < parsed.len()
            invariant
                0 <= j <= parsed.len(),
                ks == parsed@,
                idx.len() == parsed.len(),
                forall|t: int|
                    0 <= t < idx.len() ==> idx[t] < names.len() && slide_filename_spec(
                        #[trigger] names[idx[t] as int],
                    ) == Some(parsed[t]),
                match best {
                    Some((b, bi)) => {
                        &&& ks.take(j as int).contains(b)
                        &&& after(b, prev)
                        &&& forall|t: int|
                            0 <= t < j && after(ks[t], prev) ==> !key_lt(#[trigger] ks[t], b)
                        &&& bi < names.len()
                        &&& slide_filename_spec(names[bi as int]) == Some(b)
                        &&& cnt == key_count(ks.take(j as int), b)
                        &&& cnt <= j
                    },
                    None => forall|t: int| 0 <= t < j ==> !after(#[trigger] ks[t], prev),
                },
            decreases parsed.len() - j,
        {
            let k = parsed[j];
            let ghost jj = j as int;
            proof {
                assert(ks.take(jj + 1).drop_last() =~= ks.take(jj));
                assert(ks.take(jj + 1).last() == k);
            }
            let is_after = match prev {
                Some(p) => p.chapter < k.chapter || (p.chapter == k.chapter && p.slide < k.slide),
                None => true,
            };
            if is_after {
                match best {
                    None => {
                        proof {
                            assert forall|t: int| 0 <= t < jj implies ks.take(jj)[t] != k by {
                                assert(ks.take(jj)[t] == ks[t]);
                            }
                            lemma_key_count_absent(ks.take(jj), k);
                            assert(ks.take(jj + 1)[jj] == k);
                        }
                        best = Some((k, idx[j]));
                        cnt = 1;
                    },
                    Some((b, _)) => {
                        if k.chapter < b.chapter || (k.chapter == b.chapter && k.slide < b.slide) {
                            proof {
                                assert forall|t: int| 0 <= t < jj implies ks.take(jj)[t] != k by {
                                    assert(ks.take(jj)[t] == ks[t]);
                                }
                                lemma_key_count_absent(ks.take(jj), k);
                                assert(ks.take(jj + 1)[jj] == k);
                            }
                            best = Some((k, idx[j]));
                            cnt = 1;
                        } else if k.chapter == b.chapter && k.slide == b.slide {
                            proof {
                                let w = choose|w: int| 0 <= w < jj && ks.take(jj)[w] == b;
                                assert(ks.take(jj + 1)[w] == b);
                            }
                            cnt += 1;
                        } else {
                            proof {
                                let w = choose|w: int| 0 <= w < jj && ks.take(jj)[w] == b;
                                assert(ks.take(jj + 1)[w] == b);
                            }
                        }
                    },
                }
            } else {
                proof {
                    match best {
                        Some((b, _)) => {
                            let w = choose|w: int| 0 <= w < jj && ks.take(jj)[w] == b;
                            assert(ks.take(jj + 1)[w] == b);
                        },
                        None => {},
                    }
                }
            }
            j += 1;
        }
        assert(ks.take(parsed.len() as int) =~= ks);
        match best {
            None => {
                proof {
                    assert forall|k: SlideKey| ks.contains(k) implies keys@.contains(k) by {
                        let t = choose|t: int| 0 <= t < ks.len() && ks[t] == k;
                        assert(!after(ks[t], prev));
                    }
                }
                done = true;
            },
            Some((b, bi)) => {
                if cnt > 1 {
                    proof {
                        assert forall|k2: SlideKey| key_lt(k2, b) implies key_count(ks, k2)
                            <= 1 by {
                            if key_count(ks, k2) >= 1 {
                                if !ks.contains(k2) {
                                    lemma_key_count_absent(ks, k2);
                                }
                                let t = choose|t: int| 0 <= t < ks.len() && ks[t] == k2;
                                if after(k2, prev) {
                                    assert(!key_lt(ks[t], b));
                                }
                                assert(keys@.contains(k2));
                            }
                        }
                        assert(exists|k: SlideKey| key_count(ks, k) >= 2);
                    }
                    return Err(SlideDirError::DuplicateSlide(b));
                }
                proof {
                    lemma_count_after_decreases(ks, prev, b);
                    lemma_key_count_present(ks, b);
                }
                let ghost old_keys = keys@;
                keys.push(b);
                order.push(bi);
                proof {
                    lemma_push_least(ks, old_keys, prev, b);
                    assert(keys@ == old_keys.push(b));
                    assert forall|k: SlideKey| keys@.contains(k) implies key_count(ks, k) == 1 by {
                        let t = choose|t: int| 0 <= t < keys.len() && keys@[t] == k;
                        if t < old_keys.len() {
                            assert(old_keys[t] == k);
                            assert(old_keys.contains(k));
                        }
                    }
                    assert forall|a: int, c: int| 0 <= a < c < keys.len() implies key_lt(
                        keys@[a],
                        keys@[c],
                    ) by {
                        if c < old_keys.len() {
                            assert(keys@[a] == old_keys[a] && keys@[c] == old_keys[c]);
                        } else if a < old_keys.len() {
                            assert(keys@[a] == old_keys[a]);
                            assert(keys@[c] == b);
                            let last = old_keys.len() - 1;
                            if a < last {
                                assert(key_lt(old_keys[a], old_keys[last]));
                            }
                            assert(prev == Some(old_keys[last]));
                            assert(key_lt(old_keys[last], b));
                        }
                    }
                }
                prev = Some(b);
                assert(forall|k: SlideKey| (ks.contains(k) && !after(k, prev)) <==> keys@.contains(k));
            },
        }
    }
    proof {
        assert forall|k: SlideKey| key_count(ks, k) <= 1 by {
            if key_count(ks, k) >= 1 {
                if !ks.contains(k) {
                    lemma_key_count_absent(ks, k);
                }
                assert(ks.contains(k));
                assert(keys@.contains(k));
                assert(key_count(ks, k) == 1);
            }
        }
    }
    // Metadata for each slide, from the notes or the defaults.
    let notes = match notes_text {
        Some(t) => parse_presenter_notes(t),
        None => SlideMetaMap::new(),
    };
    let ghost nmap = notes@;
    let mut meta = SlideMetaMap::new();
    let mut t: usize = 0;
    while t < keys.len()
        invariant
            0 <= t <= keys.len(),
            meta@ == deck_meta_map(keys@.take(t as int), nmap),
            nmap == notes@,
        decreases keys.len() - t,
    {
        let k = keys[t];
        proof {
            assert(keys@.take(t + 1).drop_last() =~= keys@.take(t as int));
        }
        let m = match notes.get(&(k.chapter, k.slide)) {
            Some(e) => SlideMeta {
                chapter_num: k.chapter,
                slide_num: k.slide,
                chapter_name: e.chapter_name.clone(),
                slide_name: e.slide_name.clone(),
                presenter_notes: e.presenter_notes.clone(),
            },
            None => {
                let mut cn: Vec<char> = Vec::new();
                push_str_chars(&mut cn, "Chapter ");
                push_decimal(&mut cn, k.chapter);
                let mut sn: Vec<char> = Vec::new();
                push_str_chars(&mut sn, "Slide ");
                push_decimal(&mut sn, k.chapter);
                push_str_chars(&mut sn, "_");
                push_decimal(&mut sn, k.slide);
                let empty: Vec<char> = Vec::new();
                let m = SlideMeta {
                    chapter_num: k.chapter,
                    slide_num: k.slide,
                    chapter_name: string_from_chars(&cn),
                    slide_name: string_from_chars(&sn),
                    presenter_notes: string_from_chars(&empty),
                };
                assert(m@.presenter_notes =~= seq![]);
                m
            },
        };
        meta.insert((k.chapter, k.slide), m);
        t += 1;
    }
    assert(keys@.take(keys.len() as int) =~= keys@);
    proof {
        lemma_deck_meta_map(keys@, nmap);
    }
    Ok((keys, meta, order))
}


/// Stepping forward and then back returns to the same slide.
pub proof fn lemma_next_then_prev_slide(len: nat, layer: int)
    requires
        0 <= layer,
    ensures
        next_slide_spec(len, layer) matches Some(n) ==> prev_slide_spec(n) == Some(layer),
{
}

/// A slide opens its chapter exactly when the slide before it closes its own.
pub proof fn lemma_chapter_boundaries(s: Seq<SlideKey>, layer: int)
    requires
        0 < layer < s.len(),
    ensures
        is_first_of_chapter_spec(s, layer) <==> is_last_of_chapter_spec(s, layer - 1),
{
}

/// "Next chapter" lands on a slide of a later chapter and skips only slides
/// of chapters no later than the current one; in a deck whose chapter numbers
/// never decrease, it lands on the first slide of a chapter, and finds nothing
/// only from the last chapter.
pub proof fn lemma_next_chapter_lands_on_later_chapter(s: Seq<SlideKey>, layer: int)
    requires
        0 <= layer < s.len(),
    ensures
        next_chapter_spec(s, layer) matches Some(n) ==> {
            &&& 0 <= n < s.len()
            &&& s[n].chapter > s[layer].chapter
            &&& forall|j: int| 0 <= j < n ==> s[j].chapter <= s[layer].chapter
            &&& chapters_non_decreasing(s) ==> is_first_of_chapter_spec(s, n) && n > layer
        },
        next_chapter_spec(s, layer) is None ==> forall|j: int|
            0 <= j < s.len() ==> s[j].chapter <= s[layer].chapter,
{
    lemma_position_chapter_above(s, s[layer].chapter);
}

/// "Previous chapter" lands on a slide of an earlier chapter, the last such
/// slide; in a deck whose chapter numbers never decrease, it lands on the last
/// slide of a chapter, and finds nothing only from the first chapter.
pub proof fn lemma_prev_chapter_lands_on_earlier_chapter(s: Seq<SlideKey>, layer: int)
    requires
        0 <= layer < s.len(),
    ensures
        prev_chapter_spec(s, layer) matches Some(p) ==> {
            &&& 0 <= p < s.len()
            &&& s[p].chapter < s[layer].chapter
            &&& forall|j: int| p < j < s.len() ==> s[j].chapter >= s[layer].chapter
            &&& chapters_non_decreasing(s) ==> is_last_of_chapter_spec(s, p) && p < layer
        },
        prev_chapter_spec(s, layer) is None ==> forall|j: int|
            0 <= j < s.len() ==> s[j].chapter >= s[layer].chapter,
{
    lemma_rposition_chapter_below(s, s[layer].chapter);
}

/// A deck in strictly increasing deck order has chapter numbers that never
/// decrease.
pub proof fn lemma_sorted_deck_chapters(keys: Seq<SlideKey>)
    requires
        strictly_sorted(keys),
    ensures
        chapters_non_decreasing(keys),
{
    assert forall|i: int, j: int| 0 <= i <= j < keys.len() implies keys[i].chapter
        <= keys[j].chapter by {
        if i < j {
            assert(key_lt(keys[i], keys[j]));
        }
    }
}

/// The file name of a slide.
pub open spec fn slide_filename_of(k: SlideKey) -> Seq<char> {
    decimal(k.chapter as nat) + "_"@ + decimal(k.slide as nat) + ".png"@
}

/// The name `{chapter}_{slide}.png` of a slide reads back as that slide.
pub proof fn lemma_slide_filename_roundtrip(k: SlideKey)
    ensures
        slide_filename_spec(slide_filename_of(k)) == Some(k),
{
    reveal_strlit("_");
    reveal_strlit(".png");
    let a = decimal(k.chapter as nat);
    let b = decimal(k.slide as nat);
    lemma_decimal_digits(k.chapter as nat);
    lemma_decimal_digits(k.slide as nat);
    lemma_parse_decimal(k.chapter);
    lemma_parse_decimal(k.slide);
    let name = slide_filename_of(k);
    let stem = a + "_"@ + b;
    assert(name == stem + ".png"@);
    assert(name.skip(name.len() - 4) =~= ".png"@);
    assert(name.take(name.len() - 4) =~= stem);
    assert forall|j: int| 0 <= j < a.len() implies stem[j] != '_' by {
        assert(stem[j] == a[j]);
        assert(is_digit(a[j]));
    }
    assert(stem[a.len() as int] == '_');
    lemma_find_char_at(stem, '_', a.len() as int);
    assert(stem.take(a.len() as int) =~= a);
    assert(stem.skip(a.len() as int + 1) =~= b);
    lemma_digits_lack_char(a, '_');
    lemma_digits_lack_char(b, '_');
    lemma_count_char_split(stem, a.len() as int, '_');
    assert(count_char(seq!['_'], '_') == 1) by {
        assert(seq!['_'].drop_last() =~= Seq::<char>::empty());
        assert(count_char(Seq::<char>::empty(), '_') == 0);
        assert(seq!['_'].last() == '_');
    }
    assert(stem.take(a.len() as int + 1) =~= a + seq!['_']);
    lemma_count_char_split(a + seq!['_'], a.len() as int, '_');
    assert((a + seq!['_']).take(a.len() as int) =~= a);
    assert((a + seq!['_']).skip(a.len() as int) =~= seq!['_']);
    lemma_count_char_split(stem, a.len() as int + 1, '_');
}

/// A character that occurs is counted at least once.
pub proof fn lemma_count_char_present(s: Seq<char>, c: char, i: int)
    requires
        0 <= i < s.len(),
        s[i] == c,
    ensures
        count_char(s, c) >= 1,
    decreases s.len(),
{
    if i < s.len() - 1 {
        assert(s.drop_last()[i] == c);
        lemma_count_char_present(s.drop_last(), c, i);
    }
}

/// A file name denotes slide `k` exactly when it is `a_b.png` for texts `a`
/// and `b` without `_` that read as `k`'s chapter and slide numbers.
pub proof fn lemma_slide_filename_parts(name: Seq<char>, k: SlideKey)
    ensures
        slide_filename_spec(name) == Some(k) <==> exists|a: Seq<char>, b: Seq<char>|
            {
                &&& !a.contains('_')
                &&& !b.contains('_')
                &&& name == a + "_"@ + b + ".png"@
                &&& parse_u32_spec(a) == Some(k.chapter)
                &&& parse_u32_spec(b) == Some(k.slide)
            },
{
    reveal_strlit("_");
    reveal_strlit(".png");
    if slide_filename_spec(name) == Some(k) {
        let stem = name.take(name.len() - 4);
        let j = find_char(stem, '_');
        lemma_find_char_bound(stem, '_');
        if j >= stem.len() {
            lemma_count_char_absent(stem, '_');
        }
        let a = stem.take(j as int);
        let b = stem.skip(j as int + 1);
        assert forall|i: int| 0 <= i < a.len() implies a[i] != '_' by {
            assert(a[i] == stem[i]);
        }
        lemma_count_char_split(stem, j as int + 1, '_');
        let front = stem.take(j as int + 1);
        assert(front.drop_last() =~= a);
        assert(front.last() == '_');
        lemma_count_char_absent(a, '_');
        assert(count_char(front, '_') == 1);
        assert(stem.skip(j as int + 1) == b);
        if b.contains('_') {
            let i = choose|i: int| 0 <= i < b.len() && b[i] == '_';
            lemma_count_char_present(b, '_', i);
        }
        assert(name.skip(name.len() - 4) == ".png"@);
        assert(name =~= a + "_"@ + b + ".png"@) by {
            assert(stem =~= a + "_"@ + b);
            assert(name =~= stem + name.skip(name.len() - 4));
        }
    }
    if exists|a: Seq<char>, b: Seq<char>|
        {
            &&& !a.contains('_')
            &&& !b.contains('_')
            &&& name == a + "_"@ + b + ".png"@
            &&& parse_u32_spec(a) == Some(k.chapter)
            &&& parse_u32_spec(b) == Some(k.slide)
        } {
        let (a, b) = choose|a: Seq<char>, b: Seq<char>|
            {
                &&& !a.contains('_')
                &&& !b.contains('_')
                &&& name == a + "_"@ + b + ".png"@
                &&& parse_u32_spec(a) == Some(k.chapter)
                &&& parse_u32_spec(b) == Some(k.slide)
            };
        let stem = a + seq!['_'] + b;
        assert(name =~= stem + ".png"@);
        assert(name.skip(name.len() - 4) =~= ".png"@);
        assert(name.take(name.len() - 4) =~= stem);
        assert forall|j: int| 0 <= j < a.len() implies stem[j] != '_' by {
            assert(stem[j] == a[j]);
            if a[j] == '_' {
                assert(a.contains('_'));
            }
        }
        assert(stem[a.len() as int] == '_');
        lemma_find_char_at(stem, '_', a.len() as int);
        assert(stem.take(a.len() as int) =~= a);
        assert(stem.skip(a.len() as int + 1) =~= b);
        assert forall|j: int| 0 <= j < a.len() implies a[j] != '_' by {
            if a[j] == '_' {
                assert(a.contains('_'));
            }
        }
        assert forall|j: int| 0 <= j < b.len() implies b[j] != '_' by {
            if b[j] == '_' {
                assert(b.contains('_'));
            }
        }
        lemma_count_char_absent(a, '_');
        lemma_count_char_absent(b, '_');
        lemma_count_char_split(stem, a.len() as int + 1, '_');
        let front = stem.take(a.len() as int + 1);
        assert(front.drop_last() =~= a);
        assert(front.last() == '_');
    }
}

/// A string of digits holds no character that is not a digit.
pub proof fn lemma_digits_lack_char(s: Seq<char>, c: char)
    requires
        all_digits(s),
        !is_digit(c),
    ensures
        count_char(s, c) == 0,
{
    assert forall|j: int| 0 <= j < s.len() implies s[j] != c by {
        assert(is_digit(s[j]));
    }
    lemma_count_char_absent(s, c);
}

/// Counting splits over a cut of the text.
pub proof fn lemma_count_char_split(s: Seq<char>, k: int, c: char)
    requires
        0 <= k <= s.len(),
    ensures
        count_char(s, c) == count_char(s.take(k), c) + count_char(s.skip(k), c),
    decreases s.len() - k,
{
    if k == s.len() {
        assert(s.take(k) =~= s);
        assert(s.skip(k) =~= Seq::<char>::empty());
    } else {
        lemma_count_char_split(s.drop_last(), k, c);
        assert(s.drop_last().take(k) =~= s.take(k));
        assert(s.skip(k).drop_last() =~= s.drop_last().skip(k));
        assert(s.skip(k).last() == s.last());
    }
}

/// Every entry of the presenter notes is stored under its own chapter and
/// slide numbers, with trimmed title and notes.
pub open spec fn entries_consistent(m: Map<(u32, u32), MetaView>) -> bool {
    forall|k: (u32, u32)| #[trigger]
        m.contains_key(k) ==> m[k].chapter_num == k.0 && m[k].slide_num == k.1 && is_trimmed(
            m[k].presenter_notes,
        ) && is_trimmed(m[k].slide_name) && is_trimmed(m[k].chapter_name)
}

/// Whether `s` neither begins nor ends with whitespace.
pub open spec fn is_trimmed(s: Seq<char>) -> bool {
    s.len() > 0 ==> !is_ws(s[0]) && !is_ws(s.last())
}

/// Whether the reader's state keeps its entries consistent and its chapter
/// name and pending title trimmed.
pub open spec fn notes_state_ok(st: NotesState) -> bool {
    &&& entries_consistent(st.map)
    &&& is_trimmed(st.chapter_name)
    &&& st.pending matches Some((_, _, n)) ==> is_trimmed(n)
}

proof fn lemma_notes_step_ok(st: NotesState, line: Seq<char>)
    requires
        notes_state_ok(st),
    ensures
        notes_state_ok(notes_step(st, line)),
        notes_state_ok(flush_spec(st)),
{
    lemma_flush_ok(st);
    let f = flush_spec(st);
    if is_chapter_line(line) {
        let rest = line.skip(2);
        let k = find_char(rest, ':');
        lemma_trim_is_trimmed(rest.skip(k as int + 1));
    } else if is_slide_line(line) {
        let rest = line.skip(3);
        let k = find_char(rest, ':');
        lemma_trim_is_trimmed(rest.skip(k as int + 1));
    }
}

proof fn lemma_flush_ok(st: NotesState)
    requires
        notes_state_ok(st),
    ensures
        notes_state_ok(flush_spec(st)),
{
    lemma_trim_is_trimmed(st.notes);
    let f = flush_spec(st);
    assert forall|k: (u32, u32)| #[trigger] f.map.contains_key(k) implies f.map[k].chapter_num
        == k.0 && f.map[k].slide_num == k.1 && is_trimmed(f.map[k].presenter_notes) && is_trimmed(
        f.map[k].slide_name,
    ) && is_trimmed(f.map[k].chapter_name) by {
        if !st.map.contains_key(k) || (st.pending matches Some((c, s, _)) && k == (c, s)) {
        }
    }
}

proof fn lemma_notes_fold_ok(ls: Seq<Seq<char>>)
    ensures
        notes_state_ok(notes_fold(ls)),
    decreases ls.len(),
{
    if ls.len() == 0 {
        assert(notes_start().map =~= Map::<(u32, u32), MetaView>::empty());
    } else {
        lemma_notes_fold_ok(ls.drop_last());
        lemma_notes_step_ok(notes_fold(ls.drop_last()), ls.last());
    }
}

/// Every slide entry that a presenter-notes file yields is stored under its
/// own `(chapter, slide)` key, and its chapter name, title and notes neither
/// begin nor end with whitespace.
pub proof fn lemma_presenter_notes_consistent(content: Seq<char>)
    ensures
        entries_consistent(presenter_notes_spec(content)),
{
    lemma_notes_fold_ok(lines(content));
    lemma_flush_ok(notes_fold(lines(content)));
}

proof fn lemma_notes_fold_no_slides(ls: Seq<Seq<char>>)
    requires
        forall|i: int| 0 <= i < ls.len() ==> !is_slide_line(#[trigger] ls[i]),
    ensures
        notes_fold(ls).pending is None,
        notes_fold(ls).map == Map::<(u32, u32), MetaView>::empty(),
    decreases ls.len(),
{
    if ls.len() > 0 {
        let t = ls.drop_last();
        assert forall|i: int| 0 <= i < t.len() implies !is_slide_line(#[trigger] t[i]) by {
            assert(t[i] == ls[i]);
        }
        lemma_notes_fold_no_slides(t);
        assert(!is_slide_line(ls[ls.len() - 1]));
    }
}

/// A presenter-notes file without any `## ` slide line yields no entry.
pub proof fn lemma_presenter_notes_without_slides(content: Seq<char>)
    requires
        forall|i: int| 0 <= i < lines(content).len() ==> !is_slide_line(#[trigger] lines(content)[i]),
    ensures
        presenter_notes_spec(content) == Map::<(u32, u32), MetaView>::empty(),
{
    lemma_notes_fold_no_slides(lines(content));
}

} // verus!
