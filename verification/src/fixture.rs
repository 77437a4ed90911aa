//! Fixtures: several files written as one text, each introduced by a line that
//! starts with `//-` and names the file; and texts with a cursor marker `<|>`,
//! which shows a position in a text and is taken out before the text is used.

use crate::split::{lemma_pieces_nonempty, lemma_pieces_step, pieces};
use crate::text::TextUnit;
use vstd::prelude::*;
use vstd::string::*;

verus! {

/// The cursor marker.
pub const CURSOR_MARKER: &'static str = "<|>";

/// Whether the marker stands at place `i` of `s`.
pub open spec fn marker_at(s: Seq<char>, i: int) -> bool {
    &&& 0 <= i
    &&& i + 3 <= s.len()
    &&& s[i] == '<'
    &&& s[i + 1] == '|'
    &&& s[i + 2] == '>'
}

/// Whether `i` is the first place of `s` at which the marker stands.
pub open spec fn first_marker_at(s: Seq<char>, i: int) -> bool {
    marker_at(s, i) && forall|j: int| 0 <= j < i ==> !marker_at(s, j)
}

/// Whether the marker stands anywhere in `s`.
pub open spec fn has_marker(s: Seq<char>) -> bool {
    exists|i: int| marker_at(s, i)
}

/// The text without the marker that stands at place `i`.
pub open spec fn without_marker(s: Seq<char>, i: int) -> Seq<char> {
    s.take(i) + s.skip(i + 3)
}

/// The number of bytes that a character takes in UTF-8.
pub open spec fn utf8_width(c: char) -> nat {
    if (c as u32) < 0x80 {
        1
    } else if (c as u32) < 0x800 {
        2
    } else if (c as u32) < 0x10000 {
        3
    } else {
        4
    }
}

/// The number of bytes that a text takes in UTF-8.
pub open spec fn byte_len(s: Seq<char>) -> nat
    decreases s.len(),
{
    if s.len() == 0 {
        0
    } else {
        byte_len(s.drop_last()) + utf8_width(s.last())
    }
}

/// The offset, in bytes, of place `i` of `s`.
pub open spec fn byte_offset(s: Seq<char>, i: int) -> nat {
    byte_len(s.take(i))
}

fn char_width(c: char) -> (w: u128)
    ensures
        w == utf8_width(c),
{
    let v = c as u32;
    if v < 0x80 {
        1
    } else if v < 0x800 {
        2
    } else if v < 0x10000 {
        3
    } else {
        4
    }
}

/// Finds the first cursor marker of a text. Returns the offset of the marker
/// in bytes and the text without it; `None` where the text has no marker, or
/// the offset does not fit 32 bits.
pub fn try_extract_offset(text: &str) -> (res: Option<(TextUnit, String)>)
    ensures
        match res {
            Some((offset, rest)) => exists|i: int|
                {
                    &&& first_marker_at(text@, i)
                    &&& offset.0 == byte_offset(text@, i)
                    &&& rest@ == without_marker(text@, i)
                },
            None => !has_marker(text@) || exists|i: int|
                first_marker_at(text@, i) && byte_offset(text@, i) > u32::MAX,
        },
{
    let n = text.unicode_len();
    let mut i: usize = 0;
    let mut offset: u128 = 0;
    assert(text@.take(0) =~= Seq::<char>::empty());
    while n >= 3 && i <= n - 3
        invariant
            n == text@.len(),
            i <= n,
            offset == byte_offset(text@, i as int),
            offset <= 4 * i,
            forall|j: int| 0 <= j < i ==> !marker_at(text@, j),
        decreases n - i,
    {
        if text.get_char(i) == '<' && text.get_char(i + 1) == '|' && text.get_char(i + 2) == '>' {
            let prefix = text.substring_char(0, i);
            let suffix = text.substring_char(i + 3, n);
            assert(prefix@ =~= text@.take(i as int));
            assert(suffix@ =~= text@.skip(i + 3));
            assert(first_marker_at(text@, i as int));
            if offset > u32::MAX as u128 {
                return None;
            }
            let mut rest = prefix.to_owned();
            rest.append(suffix);
            return Some((TextUnit(offset as u32), rest));
        }
        proof {
            assert(text@.take(i + 1).drop_last() =~= text@.take(i as int));
        }
        offset = offset + char_width(text.get_char(i));
        i = i + 1;
    }
    assert(!has_marker(text@)) by {
        if has_marker(text@) {
            let j = choose|j: int| marker_at(text@, j);
            assert(j < i);
        }
    }
    None
}

/// The place of the first marker is determined by the text.
pub proof fn lemma_first_marker_unique(s: Seq<char>, i: int, j: int)
    requires
        first_marker_at(s, i),
        first_marker_at(s, j),
    ensures
        i == j,
{
    if i < j {
        assert(!marker_at(s, i));
    }
    if j < i {
        assert(!marker_at(s, j));
    }
}

/// Whether `extract_offset` finds a marker whose offset fits 32 bits.
pub open spec fn extractable(s: Seq<char>) -> bool {
    exists|i: int| first_marker_at(s, i) && byte_offset(s, i) <= u32::MAX
}

/// Takes the first cursor marker out of a text that has one, and returns its
/// offset in bytes and the text without it.
pub fn extract_offset(text: &str) -> (res: (TextUnit, String))
    requires
        extractable(text@),
    ensures
        exists|i: int|
            {
                &&& first_marker_at(text@, i)
                &&& res.0.0 == byte_offset(text@, i)
                &&& res.1@ == without_marker(text@, i)
            },
{
    let res = try_extract_offset(text);
    proof {
        let k = choose|k: int| first_marker_at(text@, k) && byte_offset(text@, k) <= u32::MAX;
        assert(marker_at(text@, k));
        if res is None {
            let i = choose|i: int| first_marker_at(text@, i) && byte_offset(text@, i) > u32::MAX;
            lemma_first_marker_unique(text@, i, k);
        }
    }
    res.unwrap()
}

/// A file of a fixture: the text of its heading line, and its text.
pub struct FixtureEntry {
    pub meta: String,
    pub text: String,
}

impl View for FixtureEntry {
    type V = (Seq<char>, Seq<char>);

    open spec fn view(&self) -> (Seq<char>, Seq<char>) {
        (self.meta@, self.text@)
    }
}

/// Whether a character is trimmed off a heading.
pub open spec fn is_space(c: char) -> bool {
    c == ' ' || c == '\t' || c == '\r'
}

/// `s` without the spaces at its start.
pub open spec fn trim_start(s: Seq<char>) -> Seq<char>
    decreases s.len(),
{
    if s.len() > 0 && is_space(s[0]) {
        trim_start(s.skip(1))
    } else {
        s
    }
}

/// `s` without the spaces at its end.
pub open spec fn trim_end(s: Seq<char>) -> Seq<char>
    decreases s.len(),
{
    if s.len() > 0 && is_space(s.last()) {
        trim_end(s.drop_last())
    } else {
        s
    }
}

/// `s` without the spaces at its start and at its end.
pub open spec fn trim(s: Seq<char>) -> Seq<char> {
    trim_end(trim_start(s))
}

/// Whether a line is the heading of a file.
pub open spec fn is_meta(line: Seq<char>) -> bool {
    line.len() >= 3 && line[0] == '/' && line[1] == '/' && line[2] == '-'
}

/// The lines of a text. A line ends at a line feed or at the end of the text;
/// the end of the text, where it follows a line feed, starts no further line.
pub open spec fn lines(s: Seq<char>) -> Seq<Seq<char>> {
    let p = pieces(s, '\n');
    if p.last().len() == 0 {
        p.drop_last()
    } else {
        p
    }
}

/// What is known while the lines of a fixture are read: the files that are
/// complete, the heading of the file at hand, and its text so far.
pub struct FixtureState {
    pub entries: Seq<(Seq<char>, Seq<char>)>,
    pub meta: Option<Seq<char>>,
    pub buf: Seq<char>,
}

impl FixtureState {
    /// The files, the file at hand included.
    pub open spec fn flushed(self) -> Seq<(Seq<char>, Seq<char>)> {
        match self.meta {
            Some(m) => self.entries.push((m, self.buf)),
            None => self.entries,
        }
    }

    /// What one more line does: a heading completes the file at hand and
    /// starts the next; any other line, with a line feed, goes to the text of
    /// the file at hand. The lines before the first heading are dropped.
    pub open spec fn step(self, line: Seq<char>) -> FixtureState {
        if is_meta(line) {
            FixtureState {
                entries: self.flushed(),
                meta: Some(trim(line.skip(3))),
                buf: Seq::empty(),
            }
        } else {
            FixtureState { buf: self.buf + line + seq!['\n'], ..self }
        }
    }

    /// The state after the lines given, from the state before the first line.
    pub open spec fn scan(lines: Seq<Seq<char>>) -> FixtureState
        decreases lines.len(),
    {
        if lines.len() == 0 {
            FixtureState { entries: Seq::empty(), meta: None, buf: Seq::empty() }
        } else {
            Self::scan(lines.drop_last()).step(lines.last())
        }
    }
}

/// The files of a fixture, each with its heading and its text.
pub open spec fn parse_fixture_spec(fixture: Seq<char>) -> Seq<(Seq<char>, Seq<char>)> {
    FixtureState::scan(lines(fixture)).flushed()
}

/// The files of a list, each as heading and text.
pub open spec fn entry_views(entries: Seq<FixtureEntry>) -> Seq<(Seq<char>, Seq<char>)> {
    entries.map_values(|e: FixtureEntry| e@)
}

fn space(c: char) -> (res: bool)
    ensures
        res == is_space(c),
{
    c == ' ' || c == '\t' || c == '\r'
}

fn trimmed(s: &str, from: usize, to: usize) -> (res: String)
    requires
        from <= to <= s@.len(),
    ensures
        res@ == trim(s@.subrange(from as int, to as int)),
{
    let mut lo: usize = from;
    while lo < to && space(s.get_char(lo))
        invariant
            from <= lo <= to <= s@.len(),
            trim_start(s@.subrange(from as int, to as int)) == trim_start(
                s@.subrange(lo as int, to as int),
            ),
        decreases to - lo,
    {
        proof {
            assert(s@.subrange(lo as int, to as int).skip(1) =~= s@.subrange(lo + 1, to as int));
        }
        lo = lo + 1;
    }
    let mut hi: usize = to;
    while hi > lo && space(s.get_char(hi - 1))
        invariant
            lo <= hi <= to <= s@.len(),
            trim_end(s@.subrange(lo as int, to as int)) == trim_end(
                s@.subrange(lo as int, hi as int),
            ),
        decreases hi - lo,
    {
        proof {
            assert(s@.subrange(lo as int, hi as int).drop_last() =~= s@.subrange(
                lo as int,
                hi - 1,
            ));
        }
        hi = hi - 1;
    }
    s.substring_char(lo, hi).to_owned()
}

struct FixtureParser {
    res: Vec<FixtureEntry>,
    meta: Option<String>,
    buf: String,
}

impl FixtureParser {
    spec fn state(&self) -> FixtureState {
        FixtureState {
            entries: entry_views(self.res@),
            meta: match self.meta {
                Some(m) => Some(m@),
                None => None,
            },
            buf: self.buf@,
        }
    }

    fn flush(&mut self)
        ensures
            final(self).state().entries == old(self).state().flushed(),
            final(self).state().meta is None,
    {
        let mut meta: Option<String> = None;
        std::mem::swap(&mut self.meta, &mut meta);
        match meta {
            Some(meta) => {
                self.res.push(FixtureEntry { meta, text: self.buf.clone() });
                assert(entry_views(self.res@) =~= entry_views(old(self).res@).push(
                    (meta@, self.buf@),
                ));
            },
            None => {},
        }
    }

    fn line(&mut self, fixture: &str, from: usize, to: usize)
        requires
            from <= to <= fixture@.len(),
        ensures
            final(self).state() == old(self).state().step(
                fixture@.subrange(from as int, to as int),
            ),
    {
        let ghost line = fixture@.subrange(from as int, to as int);
        if to - from >= 3 && fixture.get_char(from) == '/' && fixture.get_char(from + 1) == '/'
            && fixture.get_char(from + 2) == '-' {
            self.flush();
            self.buf = String::new();
            self.meta = Some(trimmed(fixture, from + 3, to));
            assert(line.skip(3) =~= fixture@.subrange(from + 3, to as int));
        } else {
            self.buf.append(fixture.substring_char(from, to));
            proof {
                reveal_strlit("\n");
                assert("\n"@ =~= seq!['\n']);
            }
            self.buf.append("\n");
        }
    }
}

/// Reads the files of a fixture.
#[verifier::rlimit(60)]
pub fn parse_fixture(fixture: &str) -> (res: Vec<FixtureEntry>)
    ensures
        entry_views(res@) == parse_fixture_spec(fixture@),
{
    let n = fixture.unicode_len();
    let mut parser = FixtureParser { res: Vec::new(), meta: None, buf: String::new() };
    let mut start: usize = 0;
    let mut i: usize = 0;
    proof {
        assert(fixture@.take(0) =~= Seq::<char>::empty());
        assert(pieces(fixture@.take(0), '\n').drop_last() =~= Seq::<Seq<char>>::empty());
        assert(fixture@.subrange(0, 0) =~= Seq::<char>::empty());
        assert(entry_views(parser.res@) =~= Seq::<(Seq<char>, Seq<char>)>::empty());
    }
    while i < n
        invariant
            n == fixture@.len(),
            start <= i <= n,
            parser.state() == FixtureState::scan(pieces(fixture@.take(i as int), '\n').drop_last()),
            fixture@.subrange(start as int, i as int) == pieces(fixture@.take(i as int), '\n').last(),
        decreases n - i,
    {
        let c = fixture.get_char(i);
        proof {
            let before = pieces(fixture@.take(i as int), '\n');
            lemma_pieces_step(fixture@, '\n', i as int);
            if c == '\n' {
                assert(before.push(Seq::<char>::empty()).drop_last() =~= before);
                assert(fixture@.subrange(i + 1, i + 1) =~= Seq::<char>::empty());
            } else {
                assert(before.drop_last().push(before.last().push(c)).drop_last()
                    =~= before.drop_last());
                assert(fixture@.subrange(start as int, i + 1) =~= fixture@.subrange(
                    start as int,
                    i as int,
                ).push(c));
            }
        }
        if c == '\n' {
            parser.line(fixture, start, i);
            start = i + 1;
        }
        i = i + 1;
    }
    proof {
        assert(fixture@.take(n as int) =~= fixture@);
        lemma_pieces_nonempty(fixture@, '\n');
        let p = pieces(fixture@, '\n');
        assert(p.drop_last().push(p.last()) =~= p);
    }
    if start < n {
        parser.line(fixture, start, n);
    }
    parser.flush();
    parser.res
}

} // verus!
