//! The presenter-notes file that `init` writes reads back as the deck it
//! describes.
use vstd::prelude::*;

use crate::example::{chapter_block, notes_markdown, slide_block, slides_block, ChapterDef, SlideDef};
use crate::text::{
    all_digits, count_char, decimal, find_char, is_digit, is_ws, lemma_count_char_absent,
    lemma_decimal_digits, lemma_find_char_at, lemma_find_char_bound, lemma_parse_decimal,
    lemma_trim_is_trimmed, lines, parse_u32_spec, strip_cr, trim, trim_end, trim_start,
};
use crate::texture::{
    chapter_header_name, flush_spec, is_chapter_line, is_slide_line, lemma_count_char_split,
    notes_fold, notes_start, notes_step, presenter_notes_spec, slide_header, MetaView, NotesState,
};

verus! {

/// The entries for the slides `ss` of chapter `num` named `name`, stored into
/// `m` one after the other (a later slide with the same key replaces an
/// earlier one).
pub open spec fn slide_entries(
    m: Map<(u32, u32), MetaView>,
    num: u32,
    name: Seq<char>,
    ss: Seq<SlideDef>,
) -> Map<(u32, u32), MetaView>
    decreases ss.len(),
{
    if ss.len() == 0 {
        m
    } else {
        let s = ss.last();
        slide_entries(m, num, name, ss.drop_last()).insert(
            (num, s.num),
            MetaView {
                chapter_num: num,
                slide_num: s.num,
                chapter_name: name,
                slide_name: s.name,
                presenter_notes: s.notes,
            },
        )
    }
}

/// The entries that the chapters `cs` describe: every slide under its chapter
/// and slide numbers, with its chapter's name, its title and its notes.
pub open spec fn deck_entries(cs: Seq<ChapterDef>) -> Map<(u32, u32), MetaView>
    decreases cs.len(),
{
    if cs.len() == 0 {
        Map::empty()
    } else {
        let c = cs.last();
        slide_entries(deck_entries(cs.drop_last()), c.num, c.name, c.slides)
    }
}

/// A name that fits on its header line and reads back unchanged: no line
/// break, no surrounding whitespace.
pub open spec fn header_text_ok(s: Seq<char>) -> bool {
    !s.contains('\n') && trim(s) == s
}

/// Notes that read back unchanged after their slide header: no surrounding
/// whitespace, no carriage return right before a line break, and no line that
/// the reader takes for a chapter or slide header.
pub open spec fn notes_text_ok(t: Seq<char>) -> bool {
    let u = t.push('\n');
    &&& trim(t) == t
    &&& forall|i: int| 0 <= i < t.len() && #[trigger] t[i] == '\r' ==> u[i + 1] != '\n'
    &&& forall|i: int|
        0 <= i < lines(u).len() ==> !is_chapter_line(#[trigger] lines(u)[i]) && !is_slide_line(
            lines(u)[i],
        )
}

/// Whether a slide's title and notes read back unchanged.
pub open spec fn slide_text_ok(s: SlideDef) -> bool {
    header_text_ok(s.name) && notes_text_ok(s.notes)
}

/// Whether a chapter's name and its slides read back unchanged.
pub open spec fn chapter_text_ok(c: ChapterDef) -> bool {
    &&& header_text_ok(c.name)
    &&& forall|j: int| 0 <= j < c.slides.len() ==> slide_text_ok(#[trigger] c.slides[j])
}

/// Whether all names and notes of the chapters `cs` read back unchanged.
pub open spec fn deck_text_ok(cs: Seq<ChapterDef>) -> bool {
    forall|i: int| 0 <= i < cs.len() ==> chapter_text_ok(#[trigger] cs[i])
}

/// Writing the presenter-notes file for `cs` and reading it again gives, for
/// every slide, its chapter name, title and notes as written.
pub proof fn lemma_notes_file_reads_back(cs: Seq<ChapterDef>)
    requires
        deck_text_ok(cs),
    ensures
        presenter_notes_spec(notes_markdown(cs)) == deck_entries(cs),
{
    lemma_deck(cs);
    lemma_fold_start(lines(notes_markdown(cs)));
}

/// The reader's state after the lines `ls`, started from `st`.
spec fn fold_from(st: NotesState, ls: Seq<Seq<char>>) -> NotesState
    decreases ls.len(),
{
    if ls.len() == 0 {
        st
    } else {
        notes_step(fold_from(st, ls.drop_last()), ls.last())
    }
}

/// Whether the reader, once it stores its pending entry, holds `m` and no
/// stray note text.
spec fn settled(st: NotesState, m: Map<(u32, u32), MetaView>) -> bool {
    &&& flush_spec(st).map == m
    &&& (st.pending is None ==> st.notes == Seq::<char>::empty())
}

proof fn lemma_fold_start(ls: Seq<Seq<char>>)
    ensures
        notes_fold(ls) == fold_from(notes_start(), ls),
    decreases ls.len(),
{
    if ls.len() > 0 {
        lemma_fold_start(ls.drop_last());
    }
}

proof fn lemma_fold_concat(st: NotesState, a: Seq<Seq<char>>, b: Seq<Seq<char>>)
    ensures
        fold_from(st, a + b) == fold_from(fold_from(st, a), b),
    decreases b.len(),
{
    if b.len() == 0 {
        assert(a + b =~= a);
    } else {
        lemma_fold_concat(st, a, b.drop_last());
        assert((a + b).drop_last() =~= a + b.drop_last());
        assert((a + b).last() == b.last());
    }
}

proof fn lemma_fold_cons(st: NotesState, l: Seq<char>, ls: Seq<Seq<char>>)
    ensures
        fold_from(st, seq![l] + ls) == fold_from(notes_step(st, l), ls),
{
    lemma_fold_concat(st, seq![l], ls);
    assert(seq![l].drop_last() =~= Seq::<Seq<char>>::empty());
    assert(fold_from(st, Seq::<Seq<char>>::empty()) == st);
    assert(seq![l].last() == l);
    assert(fold_from(st, seq![l]) == notes_step(st, l));
}

proof fn lemma_lines_concat(a: Seq<char>, b: Seq<char>)
    requires
        a.len() == 0 || a.last() == '\n',
    ensures
        lines(a + b) == lines(a) + lines(b),
    decreases a.len(),
{
    if a.len() == 0 {
        assert(a + b =~= b);
        assert(lines(a) + lines(b) =~= lines(b));
    } else {
        let k = find_char(a, '\n');
        lemma_find_char_bound(a, '\n');
        if k >= a.len() {
            assert(a[a.len() - 1] != '\n');
        }
        let ab = a + b;
        assert forall|j: int| 0 <= j < k implies ab[j] != '\n' by {
            assert(ab[j] == a[j]);
        }
        assert(ab[k as int] == a[k as int]);
        lemma_find_char_at(ab, '\n', k as int);
        assert(ab.take(k as int) =~= a.take(k as int));
        let ar = a.skip(k as int + 1);
        assert(ab.skip(k as int + 1) =~= ar + b);
        if ar.len() > 0 {
            assert(ar.last() == a.last());
        }
        lemma_lines_concat(ar, b);
        assert(lines(ab) == seq![strip_cr(a.take(k as int))] + lines(ar + b));
        assert(lines(a) == seq![strip_cr(a.take(k as int))] + lines(ar));
        assert(lines(ab) =~= lines(a) + lines(b));
    }
}

proof fn lemma_lines_one(x: Seq<char>)
    requires
        !x.contains('\n'),
    ensures
        lines(x.push('\n')) == seq![strip_cr(x)],
{
    let s = x.push('\n');
    assert forall|j: int| 0 <= j < x.len() implies s[j] != '\n' by {
        assert(s[j] == x[j]);
        if x[j] == '\n' {
            assert(x.contains('\n'));
        }
    }
    assert(s[x.len() as int] == '\n');
    lemma_find_char_at(s, '\n', x.len() as int);
    assert(s.take(x.len() as int) =~= x);
    let e = Seq::<char>::empty();
    assert(s.skip(x.len() as int + 1) =~= e);
    assert(lines(e) =~= Seq::<Seq<char>>::empty());
    assert(lines(s) == seq![strip_cr(s.take(x.len() as int))] + lines(s.skip(x.len() as int + 1)));
    assert(lines(s) =~= seq![strip_cr(x)]);
}

/// Lines that are no headers only add to the pending note text.
proof fn lemma_note_lines(st: NotesState, u: Seq<char>)
    requires
        u.len() == 0 || u.last() == '\n',
        forall|i: int| 0 <= i < u.len() - 1 && #[trigger] u[i] == '\r' ==> u[i + 1] != '\n',
        forall|i: int|
            0 <= i < lines(u).len() ==> !is_chapter_line(#[trigger] lines(u)[i]) && !is_slide_line(
                lines(u)[i],
            ),
    ensures
        fold_from(st, lines(u)) == (NotesState { notes: st.notes + u, ..st }),
    decreases u.len(),
{
    if u.len() == 0 {
        assert(st.notes + u =~= st.notes);
    } else {
        let k = find_char(u, '\n');
        lemma_find_char_bound(u, '\n');
        if k >= u.len() {
            assert(u[u.len() - 1] != '\n');
        }
        let head = u.take(k as int);
        let rest = u.skip(k as int + 1);
        if k > 0 && head.last() == '\r' {
            assert(u[k - 1] == '\r');
            assert(u[k as int] == '\n');
        }
        assert(strip_cr(head) == head);
        assert(lines(u) == seq![head] + lines(rest));
        assert(lines(u)[0] == head);
        lemma_fold_cons(st, head, lines(rest));
        let st1 = notes_step(st, head);
        assert(st1 == NotesState { notes: st.notes + head.push('\n'), ..st });
        assert forall|i: int| 0 <= i < lines(rest).len() implies !is_chapter_line(
            #[trigger] lines(rest)[i],
        ) && !is_slide_line(lines(rest)[i]) by {
            assert(lines(rest)[i] == lines(u)[i + 1]);
        }
        assert forall|i: int| 0 <= i < rest.len() - 1 && #[trigger] rest[i] == '\r' implies rest[i + 1]
            != '\n' by {
            assert(rest[i] == u[k + 1 + i]);
            assert(rest[i + 1] == u[k + 2 + i]);
        }
        if rest.len() > 0 {
            assert(rest.last() == u.last());
        }
        lemma_note_lines(st1, rest);
        assert(st.notes + head.push('\n') + rest =~= st.notes + u);
    }
}

proof fn lemma_digit_not_ws(c: char)
    requires
        is_digit(c),
    ensures
        !is_ws(c),
{
}

proof fn lemma_trim_digits(d: Seq<char>)
    requires
        d.len() > 0,
        all_digits(d),
    ensures
        trim(d) == d,
{
    lemma_digit_not_ws(d[0]);
    lemma_digit_not_ws(d[d.len() - 1]);
    assert(trim_start(d) == d);
    assert(trim_end(d) == d);
}

proof fn lemma_trim_space_prefix(name: Seq<char>)
    requires
        trim(name) == name,
    ensures
        trim(seq![' '] + name) == name,
{
    let s = seq![' '] + name;
    assert(s.drop_first() =~= name);
    assert(is_ws(' '));
    assert(trim_start(s) == trim_start(name));
}

proof fn lemma_trim_newline(t: Seq<char>)
    requires
        trim(t) == t,
    ensures
        trim(t.push('\n')) == t,
{
    let u = t.push('\n');
    assert(is_ws('\n'));
    if t.len() == 0 {
        assert(u.drop_first() =~= Seq::<char>::empty());
        assert(trim_start(u) == trim_start(Seq::<char>::empty()));
    } else {
        lemma_trim_is_trimmed(t);
        assert(u[0] == t[0]);
        assert(trim_start(u) == u);
        assert(u.drop_last() =~= t);
        assert(trim_end(u) == trim_end(t));
        assert(trim_end(t) == t);
    }
}

/// The text `{c}_{s}` of a slide key: one `_` between the two numbers.
proof fn lemma_key_text(c: u32, s: u32)
    ensures
        ({
            let a = decimal(c as nat);
            let b = decimal(s as nat);
            let key = a + seq!['_'] + b;
            &&& count_char(key, '_') == 1
            &&& find_char(key, '_') == a.len()
            &&& key.take(a.len() as int) == a
            &&& key.skip(a.len() as int + 1) == b
            &&& parse_u32_spec(a) == Some(c)
            &&& parse_u32_spec(b) == Some(s)
            &&& forall|j: int| 0 <= j < key.len() ==> #[trigger] key[j] != ':' && key[j] != '\n'
        }),
{
    let a = decimal(c as nat);
    let b = decimal(s as nat);
    lemma_decimal_digits(c as nat);
    lemma_decimal_digits(s as nat);
    lemma_parse_decimal(c);
    lemma_parse_decimal(s);
    let key = a + seq!['_'] + b;
    assert forall|j: int| 0 <= j < a.len() implies key[j] != '_' by {
        assert(key[j] == a[j]);
        assert(is_digit(a[j]));
    }
    assert(key[a.len() as int] == '_');
    lemma_find_char_at(key, '_', a.len() as int);
    assert(key.take(a.len() as int) =~= a);
    assert(key.skip(a.len() as int + 1) =~= b);
    assert forall|j: int| 0 <= j < b.len() implies b[j] != '_' by {
        assert(is_digit(b[j]));
    }
    lemma_count_char_absent(b, '_');
    assert forall|j: int| 0 <= j < a.len() implies a[j] != '_' by {
        assert(is_digit(a[j]));
    }
    lemma_count_char_absent(a, '_');
    lemma_count_char_split(key, a.len() as int + 1, '_');
    let front = a + seq!['_'];
    assert(key.take(a.len() as int + 1) =~= front);
    assert(front.drop_last() =~= a);
    assert(front.last() == '_');
    assert forall|j: int| 0 <= j < key.len() implies #[trigger] key[j] != ':' && key[j] != '\n' by {
        if j < a.len() {
            assert(key[j] == a[j]);
            assert(is_digit(a[j]));
        } else if j > a.len() {
            assert(key[j] == b[j - a.len() - 1]);
            assert(is_digit(b[j - a.len() - 1]));
        }
    }
}

/// A header line: a prefix without line breaks ending in a space, then a name.
proof fn lemma_header_line(p: Seq<char>, name: Seq<char>)
    requires
        p.len() > 0,
        p.last() == ' ',
        forall|j: int| 0 <= j < p.len() ==> #[trigger] p[j] != '\n',
        header_text_ok(name),
    ensures
        !(p + name).contains('\n'),
        strip_cr(p + name) == p + name,
{
    let h = p + name;
    assert forall|j: int| 0 <= j < h.len() implies h[j] != '\n' by {
        if j < p.len() {
            assert(h[j] == p[j]);
        } else {
            assert(h[j] == name[j - p.len()]);
            if name[j - p.len()] == '\n' {
                assert(name.contains('\n'));
            }
        }
    }
    lemma_trim_is_trimmed(name);
    if name.len() > 0 {
        assert(h.last() == name.last());
    } else {
        assert(h.last() == p.last());
    }
}

/// A decimal number followed by text never holds a line break in the number.
proof fn lemma_digits_no_newline(d: Seq<char>)
    requires
        all_digits(d),
    ensures
        forall|j: int| 0 <= j < d.len() ==> #[trigger] d[j] != '\n' && d[j] != ':',
{
    assert forall|j: int| 0 <= j < d.len() implies #[trigger] d[j] != '\n' && d[j] != ':' by {
        assert(is_digit(d[j]));
    }
}

/// The text after `"# "` of a chapter header reads back as the name.
proof fn lemma_chapter_rest(num: u32, name: Seq<char>)
    requires
        header_text_ok(name),
    ensures
        chapter_header_name(decimal(num as nat) + ": "@ + name) == Some(name),
{
    reveal_strlit(": ");
    let d = decimal(num as nat);
    lemma_decimal_digits(num as nat);
    lemma_parse_decimal(num);
    lemma_digits_no_newline(d);
    let rest = d + ": "@ + name;
    assert forall|j: int| 0 <= j < d.len() implies rest[j] != ':' by {
        assert(rest[j] == d[j]);
    }
    assert(rest[d.len() as int] == ':');
    lemma_find_char_at(rest, ':', d.len() as int);
    assert(rest.take(d.len() as int) =~= d);
    lemma_trim_digits(d);
    assert(rest.skip(d.len() as int + 1) =~= seq![' '] + name);
    lemma_trim_space_prefix(name);
}

/// The header line of a chapter reads back as its name.
proof fn lemma_chapter_header(num: u32, name: Seq<char>)
    requires
        header_text_ok(name),
    ensures
        ({
            let h = "# "@ + decimal(num as nat) + ": "@ + name;
            &&& !h.contains('\n')
            &&& strip_cr(h) == h
            &&& is_chapter_line(h)
            &&& chapter_header_name(h.skip(2)) == Some(name)
        }),
{
    reveal_strlit("# ");
    reveal_strlit(": ");
    let d = decimal(num as nat);
    lemma_decimal_digits(num as nat);
    lemma_digits_no_newline(d);
    let p = "# "@ + d + ": "@;
    let h = p + name;
    assert(h == "# "@ + d + ": "@ + name);
    assert forall|j: int| 0 <= j < p.len() implies #[trigger] p[j] != '\n' by {
        if 2 <= j < 2 + d.len() {
            assert(p[j] == d[j - 2]);
        }
    }
    lemma_header_line(p, name);
    lemma_chapter_rest(num, name);
    assert(h.skip(2) =~= d + ": "@ + name);
    assert(h.take(2) =~= seq!['#', ' ']);
}

/// The text after `"## "` of a slide header reads back as its key and title.
proof fn lemma_slide_rest(c: u32, s: u32, name: Seq<char>)
    requires
        header_text_ok(name),
    ensures
        slide_header(decimal(c as nat) + "_"@ + decimal(s as nat) + ": "@ + name) == Some(
            (c, s, name),
        ),
{
    reveal_strlit("_");
    reveal_strlit(": ");
    let a = decimal(c as nat);
    let b = decimal(s as nat);
    lemma_key_text(c, s);
    let key = a + seq!['_'] + b;
    assert(a + "_"@ + b == key);
    let rest = key + ": "@ + name;
    assert forall|j: int| 0 <= j < key.len() implies rest[j] != ':' by {
        assert(rest[j] == key[j]);
    }
    assert(rest[key.len() as int] == ':');
    lemma_find_char_at(rest, ':', key.len() as int);
    assert(rest.take(key.len() as int) =~= key);
    assert(rest.skip(key.len() as int + 1) =~= seq![' '] + name);
    lemma_trim_space_prefix(name);
}

/// The header line of a slide reads back as its key and title.
proof fn lemma_slide_header(c: u32, s: u32, name: Seq<char>)
    requires
        header_text_ok(name),
    ensures
        ({
            let h = "## "@ + decimal(c as nat) + "_"@ + decimal(s as nat) + ": "@ + name;
            &&& !h.contains('\n')
            &&& strip_cr(h) == h
            &&& is_slide_line(h)
            &&& !is_chapter_line(h)
            &&& slide_header(h.skip(3)) == Some((c, s, name))
        }),
{
    reveal_strlit("## ");
    reveal_strlit("_");
    reveal_strlit(": ");
    let a = decimal(c as nat);
    let b = decimal(s as nat);
    lemma_key_text(c, s);
    let key = a + seq!['_'] + b;
    assert(a + "_"@ + b == key);
    let p = "## "@ + key + ": "@;
    let h = p + name;
    assert(h == "## "@ + a + "_"@ + b + ": "@ + name);
    assert forall|j: int| 0 <= j < p.len() implies #[trigger] p[j] != '\n' by {
        if 3 <= j < 3 + key.len() {
            assert(p[j] == key[j - 3]);
        }
    }
    lemma_header_line(p, name);
    lemma_slide_rest(c, s, name);
    assert(h.skip(3) =~= a + "_"@ + b + ": "@ + name);
    assert(h.take(3) =~= seq!['#', '#', ' ']);
    assert(h.take(2)[1] == '#');
}

proof fn lemma_slide_block(st: NotesState, m: Map<(u32, u32), MetaView>, chapter: u32, s: SlideDef)
    requires
        settled(st, m),
        slide_text_ok(s),
    ensures
        ({
            let r = fold_from(st, lines(slide_block(chapter, s)));
            &&& settled(
                r,
                m.insert(
                    (chapter, s.num),
                    MetaView {
                        chapter_num: chapter,
                        slide_num: s.num,
                        chapter_name: st.chapter_name,
                        slide_name: s.name,
                        presenter_notes: s.notes,
                    },
                ),
            )
            &&& r.chapter_name == st.chapter_name
        }),
{
    reveal_strlit("\n");
    let h = "## "@ + decimal(chapter as nat) + "_"@ + decimal(s.num as nat) + ": "@ + s.name;
    lemma_slide_header(chapter, s.num, s.name);
    let a = h.push('\n');
    let u = s.notes.push('\n');
    assert(slide_block(chapter, s) =~= a + u);
    lemma_lines_concat(a, u);
    lemma_lines_one(h);
    assert(lines(slide_block(chapter, s)) == seq![h] + lines(u));
    lemma_fold_cons(st, h, lines(u));
    let f = flush_spec(st);
    assert(f.notes == Seq::<char>::empty());
    let st1 = notes_step(st, h);
    assert(st1 == NotesState {
        map: m,
        chapter_name: st.chapter_name,
        pending: Some((chapter, s.num, s.name)),
        notes: Seq::<char>::empty(),
    });
    assert forall|i: int| 0 <= i < u.len() - 1 && #[trigger] u[i] == '\r' implies u[i + 1] != '\n' by {
        assert(u[i] == s.notes[i]);
    }
    lemma_note_lines(st1, u);
    assert(Seq::<char>::empty() + u =~= u);
    lemma_trim_newline(s.notes);
}

proof fn lemma_slides_block_ends(chapter: u32, ss: Seq<SlideDef>)
    ensures
        slides_block(chapter, ss).len() == 0 || slides_block(chapter, ss).last() == '\n',
{
    reveal_strlit("\n");
    if ss.len() > 0 {
        let b = slide_block(chapter, ss.last());
        assert(b.last() == '\n');
    }
}

proof fn lemma_slides_block(
    st: NotesState,
    m: Map<(u32, u32), MetaView>,
    chapter: u32,
    ss: Seq<SlideDef>,
)
    requires
        settled(st, m),
        forall|j: int| 0 <= j < ss.len() ==> slide_text_ok(#[trigger] ss[j]),
    ensures
        ({
            let r = fold_from(st, lines(slides_block(chapter, ss)));
            &&& settled(r, slide_entries(m, chapter, st.chapter_name, ss))
            &&& r.chapter_name == st.chapter_name
        }),
    decreases ss.len(),
{
    if ss.len() == 0 {
        assert(lines(slides_block(chapter, ss)) == Seq::<Seq<char>>::empty());
    } else {
        let init = ss.drop_last();
        assert forall|j: int| 0 <= j < init.len() implies slide_text_ok(#[trigger] init[j]) by {
            assert(init[j] == ss[j]);
        }
        lemma_slides_block(st, m, chapter, init);
        let r0 = fold_from(st, lines(slides_block(chapter, init)));
        lemma_slides_block_ends(chapter, init);
        lemma_lines_concat(slides_block(chapter, init), slide_block(chapter, ss.last()));
        lemma_fold_concat(
            st,
            lines(slides_block(chapter, init)),
            lines(slide_block(chapter, ss.last())),
        );
        assert(slide_text_ok(ss[ss.len() - 1]));
        lemma_slide_block(r0, slide_entries(m, chapter, st.chapter_name, init), chapter, ss.last());
    }
}

proof fn lemma_chapter_block(st: NotesState, m: Map<(u32, u32), MetaView>, c: ChapterDef)
    requires
        settled(st, m),
        chapter_text_ok(c),
    ensures
        ({
            let r = fold_from(st, lines(chapter_block(c)));
            &&& settled(r, slide_entries(m, c.num, c.name, c.slides))
            &&& r.chapter_name == c.name
        }),
{
    reveal_strlit("\n");
    let h = "# "@ + decimal(c.num as nat) + ": "@ + c.name;
    lemma_chapter_header(c.num, c.name);
    let sb = slides_block(c.num, c.slides);
    assert(chapter_block(c) =~= h.push('\n') + sb);
    lemma_lines_concat(h.push('\n'), sb);
    lemma_lines_one(h);
    assert(lines(chapter_block(c)) == seq![h] + lines(sb));
    lemma_fold_cons(st, h, lines(sb));
    let f = flush_spec(st);
    assert(f.notes == Seq::<char>::empty());
    let st1 = notes_step(st, h);
    assert(st1 == NotesState {
        map: m,
        chapter_name: c.name,
        pending: None,
        notes: Seq::<char>::empty(),
    });
    lemma_slides_block(st1, m, c.num, c.slides);
}

proof fn lemma_markdown_ends(cs: Seq<ChapterDef>)
    ensures
        notes_markdown(cs).len() == 0 || notes_markdown(cs).last() == '\n',
{
    reveal_strlit("\n");
    if cs.len() > 0 {
        let c = cs.last();
        let head = "# "@ + decimal(c.num as nat) + ": "@ + c.name + "\n"@;
        lemma_slides_block_ends(c.num, c.slides);
        assert(chapter_block(c) == head + slides_block(c.num, c.slides));
        if slides_block(c.num, c.slides).len() == 0 {
            assert(chapter_block(c) =~= head);
        }
    }
}

proof fn lemma_deck(cs: Seq<ChapterDef>)
    requires
        deck_text_ok(cs),
    ensures
        settled(fold_from(notes_start(), lines(notes_markdown(cs))), deck_entries(cs)),
    decreases cs.len(),
{
    if cs.len() == 0 {
        assert(lines(notes_markdown(cs)) == Seq::<Seq<char>>::empty());
        assert(notes_start().map =~= Map::<(u32, u32), MetaView>::empty());
    } else {
        let init = cs.drop_last();
        assert forall|i: int| 0 <= i < init.len() implies chapter_text_ok(#[trigger] init[i]) by {
            assert(init[i] == cs[i]);
        }
        lemma_deck(init);
        let r0 = fold_from(notes_start(), lines(notes_markdown(init)));
        lemma_markdown_ends(init);
        lemma_lines_concat(notes_markdown(init), chapter_block(cs.last()));
        lemma_fold_concat(notes_start(), lines(notes_markdown(init)), lines(chapter_block(cs.last())));
        assert(chapter_text_ok(cs[cs.len() - 1]));
        lemma_chapter_block(r0, deck_entries(init), cs.last());
    }
}

} // verus!
