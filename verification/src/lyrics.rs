//! Lyrics: the timed-line model, its queries (current line, karaoke
//! highlights) and the parsers for the `.lrc`, `.qrc` and `.krc` formats.

use vstd::prelude::*;
use crate::text::{
    lines, starts_with, starts_with_chars,
    chars_of, find_char, last_index_of, next_piece, parse_u32, parse_u32_spec, rfind_char,
    split, string_of, trim, trim_chars, index_of, utf8_len, utf8_len_upto4,
};

verus! {

/// One sung word of a line, timed relative to the line's start.
#[derive(Debug, Clone)]
pub struct LyricWord {
    /// The word's text.
    pub text: String,
    /// Offset from the line's start (ms).
    pub start: u32,
    /// How long the word lasts (ms).
    pub duration: u32,
}

/// One lyric line, with optional per-word timing for karaoke display.
#[derive(Debug, Clone)]
pub struct LyricLine {
    /// When the line starts (ms).
    pub start: u32,
    /// How long the line lasts (ms).
    pub duration: u32,
    /// Per-word timing.
    pub words: Vec<LyricWord>,
    /// The whole text, without time tags.
    pub text: String,
}

/// A word of the current line and whether it has been reached.
#[derive(Debug, Clone)]
pub struct WordHighlight {
    pub text: String,
    pub highlighted: bool,
}

/// A song's lyrics.
#[derive(Debug, Clone)]
pub struct Lyrics {
    pub lines: Vec<LyricLine>,
    /// From a `[ti:...]` tag.
    pub title: Option<String>,
    /// From an `[ar:...]` tag.
    pub artist: Option<String>,
}

pub ghost struct LyricWordView {
    pub text: Seq<char>,
    pub start: u32,
    pub duration: u32,
}

pub ghost struct LyricLineView {
    pub start: u32,
    pub duration: u32,
    pub words: Seq<LyricWordView>,
    pub text: Seq<char>,
}

pub ghost struct WordHighlightView {
    pub text: Seq<char>,
    pub highlighted: bool,
}

pub ghost struct LyricsView {
    pub lines: Seq<LyricLineView>,
    pub title: Option<Seq<char>>,
    pub artist: Option<Seq<char>>,
}

impl View for LyricWord {
    type V = LyricWordView;

    open spec fn view(&self) -> LyricWordView {
        LyricWordView { text: self.text@, start: self.start, duration: self.duration }
    }
}

pub open spec fn words_view(ws: Seq<LyricWord>) -> Seq<LyricWordView> {
    ws.map_values(|w: LyricWord| w@)
}

impl View for LyricLine {
    type V = LyricLineView;

    open spec fn view(&self) -> LyricLineView {
        LyricLineView {
            start: self.start,
            duration: self.duration,
            words: words_view(self.words@),
            text: self.text@,
        }
    }
}

impl View for WordHighlight {
    type V = WordHighlightView;

    open spec fn view(&self) -> WordHighlightView {
        WordHighlightView { text: self.text@, highlighted: self.highlighted }
    }
}

pub open spec fn opt_text(o: Option<String>) -> Option<Seq<char>> {
    match o {
        Some(s) => Some(s@),
        None => None,
    }
}

pub open spec fn lines_view(ls: Seq<LyricLine>) -> Seq<LyricLineView> {
    ls.map_values(|l: LyricLine| l@)
}

impl View for Lyrics {
    type V = LyricsView;

    open spec fn view(&self) -> LyricsView {
        LyricsView {
            lines: lines_view(self.lines@),
            title: opt_text(self.title),
            artist: opt_text(self.artist),
        }
    }
}

pub open spec fn empty_lyrics() -> LyricsView {
    LyricsView { lines: seq![], title: None, artist: None }
}

/// Line `i` is on screen at `pos` (ms): `start <= pos < start + duration`.
pub open spec fn line_covers(l: LyricLineView, pos: int) -> bool {
    l.start <= pos < l.start + l.duration
}

/// `i` is the first line that covers `pos`.
pub open spec fn is_first_cover(ls: Seq<LyricLineView>, pos: int, i: int) -> bool {
    &&& 0 <= i < ls.len()
    &&& line_covers(ls[i], pos)
    &&& forall|j: int| 0 <= j < i ==> !line_covers(#[trigger] ls[j], pos)
}

/// The first line that covers `pos`, if any.
pub open spec fn find_line_spec(ls: Seq<LyricLineView>, pos: int) -> Option<int> {
    if exists|i: int| is_first_cover(ls, pos, i) {
        Some(choose|i: int| is_first_cover(ls, pos, i))
    } else {
        None
    }
}

/// `find_line` computes `start + duration` in `u32` for the line that it
/// returns: that sum must not overflow.
pub open spec fn find_line_fits(ls: Seq<LyricLineView>, pos: int) -> bool {
    find_line_spec(ls, pos) matches Some(i) ==> ls[i].start + ls[i].duration <= u32::MAX
}

proof fn lemma_first_cover_unique(ls: Seq<LyricLineView>, pos: int, i: int)
    requires
        is_first_cover(ls, pos, i),
    ensures
        find_line_spec(ls, pos) == Some(i),
{
    let k = choose|k: int| is_first_cover(ls, pos, k);
    assert(is_first_cover(ls, pos, k));
    if k < i {
        assert(!line_covers(ls[k], pos));
    } else if k > i {
        assert(!line_covers(ls[i], pos));
    }
}

/// The karaoke state of line `idx` at `pos` (ms): each word is highlighted
/// once `pos - start` (saturating at 0) reaches the word's offset; `None` for
/// a line that does not exist or has no word timing.
pub open spec fn word_highlights_spec(ls: Seq<LyricLineView>, pos: u32, idx: int) -> Option<
    Seq<WordHighlightView>,
> {
    if 0 <= idx < ls.len() && ls[idx].words.len() > 0 {
        let l = ls[idx];
        let rel = if pos >= l.start {
            pos - l.start
        } else {
            0
        };
        Some(
            l.words.map_values(
                |w: LyricWordView| WordHighlightView { text: w.text, highlighted: rel >= w.start },
            ),
        )
    } else {
        None
    }
}

impl Lyrics {
    /// No lines and no tags.
    pub fn empty() -> (r: Self)
        ensures
            r@ == empty_lyrics(),
    {
        let r = Lyrics { lines: Vec::new(), title: None, artist: None };
        assert(r@.lines =~= seq![]);
        r
    }

    /// Whether every line ends within the `u32` range of milliseconds, so that
    /// `find_line` can be asked about any position.
    pub fn times_fit(&self) -> (b: bool)
        ensures
            b == forall|i: int|
                0 <= i < self@.lines.len() ==> #[trigger] self@.lines[i].start
                    + self@.lines[i].duration <= u32::MAX,
            b ==> forall|pos: int| find_line_fits(self@.lines, pos),
    {
        let n = self.lines.len();
        let ghost ls = self@.lines;
        let mut i: usize = 0;
        while i < n
            invariant
                i <= n == self.lines@.len() == ls.len(),
                ls == self@.lines,
                forall|j: int| 0 <= j < i ==> #[trigger] ls[j].start + ls[j].duration <= u32::MAX,
            decreases n - i,
        {
            let line = &self.lines[i];
            assert(ls[i as int] == line@);
            if (line.start as u64) + (line.duration as u64) > u32::MAX as u64 {
                assert(ls[i as int].start + ls[i as int].duration > u32::MAX);
                return false;
            }
            i = i + 1;
        }
        proof {
            assert forall|pos: int| find_line_fits(ls, pos) by {
                if exists|k: int| is_first_cover(ls, pos, k) {
                    let k = choose|k: int| is_first_cover(ls, pos, k);
                    lemma_first_cover_unique(ls, pos, k);
                    assert(ls[k].start + ls[k].duration <= u32::MAX);
                }
            }
        }
        true
    }

    /// The line to show at `position_ms`, moving on from `current`: the line
    /// on screen there, or, between lines and before the first, `current`
    /// unchanged.
    pub fn line_at(&self, position_ms: u32, current: Option<usize>) -> (r: Option<usize>)
        requires
            find_line_fits(self@.lines, position_ms as int),
        ensures
            match find_line_spec(self@.lines, position_ms as int) {
                Some(i) => r == Some(i as usize),
                None => r == current,
            },
    {
        match self.find_line(position_ms) {
            Some(i) => Some(i),
            None => current,
        }
    }

    /// The index of the first line on screen at `position_ms`.
    pub fn find_line(&self, position_ms: u32) -> (r: Option<usize>)
        requires
            find_line_fits(self@.lines, position_ms as int),
        ensures
            match r {
                Some(i) => find_line_spec(self@.lines, position_ms as int) == Some(i as int),
                None => find_line_spec(self@.lines, position_ms as int) == None::<int>,
            },
    {
        let n = self.lines.len();
        let ghost ls = self@.lines;
        let mut i: usize = 0;
        while i < n
            invariant
                i <= n == self.lines@.len() == ls.len(),
                ls == self@.lines,
                find_line_fits(ls, position_ms as int),
                forall|j: int| 0 <= j < i ==> !line_covers(#[trigger] ls[j], position_ms as int),
            decreases n - i,
        {
            let line = &self.lines[i];
            assert(ls[i as int] == line@);
            if position_ms >= line.start {
                if (position_ms as u64) < (line.start as u64) + (line.duration as u64) {
                    proof {
                        assert(is_first_cover(ls, position_ms as int, i as int));
                        lemma_first_cover_unique(ls, position_ms as int, i as int);
                    }
                    return Some(i);
                }
            }
            i = i + 1;
        }
        None
    }

    /// Per-word highlight state of line `line_idx` at `position_ms`.
    pub fn get_word_highlights(&self, position_ms: u32, line_idx: usize) -> (r: Option<
        Vec<WordHighlight>,
    >)
        ensures
            match r {
                Some(v) => word_highlights_spec(self@.lines, position_ms, line_idx as int) == Some(
                    v@.map_values(|h: WordHighlight| h@),
                ),
                None => word_highlights_spec(self@.lines, position_ms, line_idx as int) == None::<
                    Seq<WordHighlightView>,
                >,
            },
    {
        if line_idx >= self.lines.len() {
            return None;
        }
        let line = &self.lines[line_idx];
        assert(self@.lines[line_idx as int] == line@);
        let line_position = position_ms.saturating_sub(line.start);
        if line.words.len() == 0 {
            return None;
        }
        let mut highlights: Vec<WordHighlight> = Vec::new();
        let n = line.words.len();
        let mut k: usize = 0;
        while k < n
            invariant
                k <= n == line.words@.len(),
                highlights@.len() == k,
                forall|j: int|
                    0 <= j < k ==> (#[trigger] highlights@[j])@ == (WordHighlightView {
                        text: line.words@[j].text@,
                        highlighted: line_position >= line.words@[j].start,
                    }),
            decreases n - k,
        {
            let word = &line.words[k];
            let highlighted = line_position >= word.start;
            highlights.push(WordHighlight { text: word.text.clone(), highlighted });
            k = k + 1;
        }
        let ghost rel = if position_ms >= line.start {
            position_ms - line.start
        } else {
            0
        };
        assert(rel == line_position);
        assert(highlights@.map_values(|h: WordHighlight| h@) =~= line@.words.map_values(
            |w: LyricWordView| WordHighlightView { text: w.text, highlighted: rel >= w.start },
        ));
        Some(highlights)
    }
}


// ---------------------------------------------------------------------------
// Tags and timestamps
// ---------------------------------------------------------------------------

/// The content of a `[tag:content]` line: what lies between the first `:`
/// and the last `]`, trimmed; `None` unless the `:` comes before the `]`.
pub open spec fn extract_meta_spec(line: Seq<char>) -> Option<Seq<char>> {
    match (index_of(line, ':'), last_index_of(line, ']')) {
        (Some(c), Some(e)) => if c + 1 < e {
            Some(trim(line.subrange(c + 1, e)))
        } else {
            None
        },
        _ => None,
    }
}

pub fn extract_meta_chars(line: &[char]) -> (r: Option<String>)
    ensures
        opt_text(r) == extract_meta_spec(line@),
{
    let c = match find_char(line, ':') {
        Some(c) => c,
        None => return None,
    };
    let e = match rfind_char(line, ']') {
        Some(e) => e,
        None => return None,
    };
    if c + 1 < e {
        Some(string_of(trim_chars(&line[c + 1..e])))
    } else {
        None
    }
}

/// The content of a `[tag:content]` line (see `extract_meta_spec`).
pub fn extract_meta(line: &str) -> (r: Option<String>)
    ensures
        opt_text(r) == extract_meta_spec(line@),
{
    let cs = chars_of(line);
    extract_meta_chars(cs.as_slice())
}

/// The milliseconds of a `ss.xx` / `ss.xxx` seconds field: the piece after
/// the first `.` counts as hundredths when it is 2 bytes long and as
/// milliseconds when it is 3 bytes long (and must then be a number); any
/// other length, or no `.`, gives 0.
pub open spec fn millis_value(sec_part: Seq<char>) -> Option<int> {
    let sp = split(sec_part, '.');
    if sp.len() > 1 {
        let ms = sp[1];
        if utf8_len(ms) == 2 {
            match parse_u32_spec(ms) {
                Some(v) => Some(v * 10),
                None => None,
            }
        } else if utf8_len(ms) == 3 {
            match parse_u32_spec(ms) {
                Some(v) => Some(v as int),
                None => None,
            }
        } else {
            Some(0)
        }
    } else {
        Some(0)
    }
}

/// A `mm:ss[.xx]` timestamp in milliseconds: exactly one `:`, minutes and
/// seconds as `u32` numbers, milliseconds as `millis_value` reads them.
pub open spec fn clock_value(t: Seq<char>) -> Option<int> {
    let parts = split(t, ':');
    if parts.len() != 2 {
        None
    } else {
        match parse_u32_spec(parts[0]) {
            None => None,
            Some(m) => match parse_u32_spec(split(parts[1], '.')[0]) {
                None => None,
                Some(sec) => match millis_value(parts[1]) {
                    None => None,
                    Some(ms) => Some((m * 60 + sec) * 1000 + ms),
                },
            },
        }
    }
}

proof fn lemma_split_whole(s: Seq<char>)
    ensures
        s.subrange(0, s.len() as int) == s,
{
    assert(s.subrange(0, s.len() as int) =~= s);
}

proof fn lemma_split_nonempty(s: Seq<char>, sep: char)
    ensures
        split(s, sep).len() >= 1,
{
    match index_of(s, sep) {
        Some(i) => {},
        None => {},
    }
}

fn millis_of(sec_part: &[char]) -> (r: Option<u64>)
    ensures
        match r {
            Some(v) => millis_value(sec_part@) == Some(v as int) && v <= 42949672950,
            None => millis_value(sec_part@) == None::<int>,
        },
{
    let n = sec_part.len();
    proof {
        lemma_split_whole(sec_part@);
    }
    let (d, has_dot) = next_piece(sec_part, 0, '.');
    if !has_dot {
        return Some(0);
    }
    let (d2, _more) = next_piece(sec_part, d + 1, '.');
    let ms = &sec_part[d + 1..d2];
    let ghost sp = split(sec_part@, '.');
    assert(sp[1] == ms@);
    let blen = utf8_len_upto4(ms);
    if blen == 2 {
        match parse_u32(ms) {
            Some(v) => Some(v as u64 * 10),
            None => None,
        }
    } else if blen == 3 {
        match parse_u32(ms) {
            Some(v) => Some(v as u64),
            None => None,
        }
    } else {
        Some(0)
    }
}

/// Reads a `mm:ss[.xx]` timestamp (see `clock_value`); 64 bits hold every
/// value it can produce.
pub fn parse_clock(t: &[char]) -> (r: Option<u64>)
    ensures
        match r {
            Some(v) => clock_value(t@) == Some(v as int),
            None => clock_value(t@) == None::<int>,
        },
{
    proof {
        lemma_split_whole(t@);
    }
    let (c, more) = next_piece(t, 0, ':');
    if !more {
        return None;
    }
    let (c2, more2) = next_piece(t, c + 1, ':');
    if more2 {
        proof {
            lemma_split_nonempty(t@.subrange(c2 + 1, t@.len() as int), ':');
        }
        return None;
    }
    let ghost parts = split(t@, ':');
    assert(parts.len() == 2);
    let mins_s = &t[0..c];
    let sec_part = &t[c + 1..t.len()];
    assert(parts[0] == mins_s@);
    assert(parts[1] == sec_part@);
    let minutes = match parse_u32(mins_s) {
        Some(m) => m,
        None => return None,
    };
    proof {
        lemma_split_whole(sec_part@);
    }
    let (d, _has_dot) = next_piece(sec_part, 0, '.');
    let secs_s = &sec_part[0..d];
    assert(split(sec_part@, '.')[0] == secs_s@);
    let seconds = match parse_u32(secs_s) {
        Some(s) => s,
        None => return None,
    };
    let millis = match millis_of(sec_part) {
        Some(ms) => ms,
        None => return None,
    };
    Some((minutes as u64 * 60 + seconds as u64) * 1000 + millis)
}

/// `line[1..i]`, where `i` is the position of the first `]`, is a valid string
/// slice: the first character is one byte long and is not the `]` itself.
pub open spec fn bracket_slice_ok(line: Seq<char>) -> bool {
    index_of(line, ']') matches Some(e) ==> (e >= 1 && (line[0] as u32) < 0x80)
}

/// `[mm:ss.xx]text`: the time in milliseconds and the trimmed text after the
/// first `]`.
pub open spec fn parse_lrc_line_spec(line: Seq<char>) -> Option<(int, Seq<char>)> {
    match index_of(line, ']') {
        Some(e) => match clock_value(line.subrange(1, e)) {
            Some(t) => Some((t, trim(line.subrange(e + 1, line.len() as int)))),
            None => None,
        },
        None => None,
    }
}

/// `parse_lrc_line` neither slices inside a character nor overflows `u32`.
pub open spec fn lrc_line_fits(line: Seq<char>) -> bool {
    &&& bracket_slice_ok(line)
    &&& parse_lrc_line_spec(line) matches Some(p) ==> p.0 <= u32::MAX
}

pub fn parse_lrc_line_chars(line: &[char]) -> (r: Option<(u32, String)>)
    requires
        lrc_line_fits(line@),
    ensures
        match r {
            Some((t, s)) => parse_lrc_line_spec(line@) == Some((t as int, s@)),
            None => parse_lrc_line_spec(line@) == None::<(int, Seq<char>)>,
        },
{
    let e = match find_char(line, ']') {
        Some(e) => e,
        None => return None,
    };
    let t = match parse_clock(&line[1..e]) {
        Some(t) => t,
        None => return None,
    };
    let text = string_of(trim_chars(&line[e + 1..line.len()]));
    Some((t as u32, text))
}

/// Reads an LRC line `[mm:ss.xx]text` (see `parse_lrc_line_spec`).
pub fn parse_lrc_line(line: &str) -> (r: Option<(u32, String)>)
    requires
        lrc_line_fits(line@),
    ensures
        match r {
            Some((t, s)) => parse_lrc_line_spec(line@) == Some((t as int, s@)),
            None => parse_lrc_line_spec(line@) == None::<(int, Seq<char>)>,
        },
{
    let cs = chars_of(line);
    parse_lrc_line_chars(cs.as_slice())
}

/// A QRC timestamp: a plain millisecond count, else a `mm:ss.xx` clock.
pub open spec fn time_to_ms_spec(t: Seq<char>) -> Option<int> {
    match parse_u32_spec(t) {
        Some(ms) => Some(ms as int),
        None => clock_value(t),
    }
}

pub fn parse_time_to_ms_chars(t: &[char]) -> (r: Option<u32>)
    requires
        time_to_ms_spec(t@) matches Some(v) ==> v <= u32::MAX,
    ensures
        match r {
            Some(v) => time_to_ms_spec(t@) == Some(v as int),
            None => time_to_ms_spec(t@) == None::<int>,
        },
{
    if let Some(ms) = parse_u32(t) {
        return Some(ms);
    }
    match parse_clock(t) {
        Some(v) => Some(v as u32),
        None => None,
    }
}

/// Reads a timestamp as milliseconds (see `time_to_ms_spec`).
pub fn parse_time_to_ms(time_str: &str) -> (r: Option<u32>)
    requires
        time_to_ms_spec(time_str@) matches Some(v) ==> v <= u32::MAX,
    ensures
        match r {
            Some(v) => time_to_ms_spec(time_str@) == Some(v as int),
            None => time_to_ms_spec(time_str@) == None::<int>,
        },
{
    let cs = chars_of(time_str);
    parse_time_to_ms_chars(cs.as_slice())
}

/// For a time tag that is a clock (it holds a `:`), an LRC line reads the
/// same time as the timestamp parser, and its text is the rest, trimmed.
pub proof fn law_lrc_line_reads_timestamp(t: Seq<char>, rest: Seq<char>)
    requires
        t.contains(':'),
        !t.contains(']'),
    ensures
        parse_lrc_line_spec(seq!['['] + t + seq![']'] + rest) == match time_to_ms_spec(t) {
            Some(v) => Some((v, trim(rest))),
            None => None::<(int, Seq<char>)>,
        },
{
    let line = seq!['['] + t + seq![']'] + rest;
    let e: int = t.len() as int + 1;
    assert(line[e] == ']');
    assert forall|k: int| 0 <= k < e implies line[k] != ']' by {
        if k > 0 {
            assert(line[k] == t[k - 1]);
        }
    }
    crate::text::lemma_index_of_some(line, ']', e);
    assert(line.subrange(1, e) =~= t);
    assert(line.subrange(e + 1, line.len() as int) =~= rest);
    let i = choose|i: int| 0 <= i < t.len() && t[i] == ':';
    let d = if t.len() > 1 && t[0] == '+' {
        t.drop_first()
    } else {
        t
    };
    if t.len() > 1 && t[0] == '+' {
        assert(i > 0);
        assert(d[i - 1] == ':');
        assert(!crate::text::is_ascii_digit(d[i - 1]));
    } else {
        assert(!crate::text::is_ascii_digit(d[i]));
    }
    assert(crate::text::parse_u32_spec(t) is None);
}

/// The timing of a QRC tag: `start` alone lasts 5000 ms; `start,duration`
/// gives both (each a timestamp as `time_to_ms_spec` reads it, and each
/// within `u32`).
pub open spec fn qrc_timing_spec(tag: Seq<char>) -> Option<(int, int)> {
    match index_of(tag, ',') {
        None => match time_to_ms_spec(tag) {
            Some(st) => Some((st, 5000)),
            None => None,
        },
        Some(c) => match (
            time_to_ms_spec(tag.subrange(0, c)),
            time_to_ms_spec(tag.subrange(c + 1, tag.len() as int)),
        ) {
            (Some(st), Some(d)) => if st <= u32::MAX && d <= u32::MAX {
                Some((st, d))
            } else {
                None
            },
            _ => None,
        },
    }
}

/// A QRC line `[start]text` or `[start,duration]text`: timed by its tag (see
/// `qrc_timing_spec`), keeping the text after the first `]` as it is, with
/// no word timing.
pub open spec fn parse_qrc_line_spec(line: Seq<char>) -> Option<LyricLineView> {
    match index_of(line, ']') {
        Some(e) => match qrc_timing_spec(line.subrange(1, e)) {
            Some((st, d)) => Some(
                LyricLineView {
                    start: st as u32,
                    duration: d as u32,
                    words: seq![],
                    text: line.subrange(e + 1, line.len() as int),
                },
            ),
            None => None,
        },
        None => None,
    }
}

/// `parse_qrc_line` neither slices inside a character nor overflows `u32`
/// reading a lone start time.
pub open spec fn qrc_line_fits(line: Seq<char>) -> bool {
    &&& bracket_slice_ok(line)
    &&& index_of(line, ']') matches Some(e) ==> (index_of(line.subrange(1, e), ',') is None ==> (
    time_to_ms_spec(line.subrange(1, e)) matches Some(v) ==> v <= u32::MAX))
}

/// A timestamp's value in 64 bits, which hold every value it can have.
fn time_value(t: &[char]) -> (r: Option<u64>)
    ensures
        match r {
            Some(v) => time_to_ms_spec(t@) == Some(v as int),
            None => time_to_ms_spec(t@) == None::<int>,
        },
{
    if let Some(ms) = parse_u32(t) {
        return Some(ms as u64);
    }
    parse_clock(t)
}

/// The timing of a QRC tag (see `qrc_timing_spec`).
fn qrc_timing(tag: &[char]) -> (r: Option<(u32, u32)>)
    requires
        index_of(tag@, ',') is None ==> (time_to_ms_spec(tag@) matches Some(v) ==> v <= u32::MAX),
    ensures
        match r {
            Some((st, d)) => qrc_timing_spec(tag@) == Some((st as int, d as int)),
            None => qrc_timing_spec(tag@) == None::<(int, int)>,
        },
{
    match find_char(tag, ',') {
        None => match parse_time_to_ms_chars(tag) {
            Some(st) => Some((st, 5000)),
            None => None,
        },
        Some(c) => {
            let st = time_value(&tag[0..c]);
            let d = time_value(&tag[c + 1..tag.len()]);
            match (st, d) {
                (Some(st), Some(d)) => if st <= 0xffff_ffffu64 && d <= 0xffff_ffffu64 {
                    Some((st as u32, d as u32))
                } else {
                    None
                },
                _ => None,
            }
        },
    }
}

pub fn parse_qrc_line_chars(line: &[char]) -> (r: Option<LyricLine>)
    requires
        qrc_line_fits(line@),
    ensures
        match r {
            Some(l) => parse_qrc_line_spec(line@) == Some(l@),
            None => parse_qrc_line_spec(line@) == None::<LyricLineView>,
        },
{
    let e = match find_char(line, ']') {
        Some(e) => e,
        None => return None,
    };
    let (start, duration) = match qrc_timing(&line[1..e]) {
        Some(v) => v,
        None => return None,
    };
    let l = LyricLine {
        start,
        duration,
        words: Vec::new(),
        text: string_of(&line[e + 1..line.len()]),
    };
    assert(l@.words =~= seq![]);
    Some(l)
}

/// Reads a QRC line (see `parse_qrc_line_spec`).
pub fn parse_qrc_line(line: &str) -> (r: Option<LyricLine>)
    requires
        qrc_line_fits(line@),
    ensures
        match r {
            Some(l) => parse_qrc_line_spec(line@) == Some(l@),
            None => parse_qrc_line_spec(line@) == None::<LyricLineView>,
        },
{
    let cs = chars_of(line);
    parse_qrc_line_chars(cs.as_slice())
}


// ---------------------------------------------------------------------------
// KRC lines
// ---------------------------------------------------------------------------

pub open spec fn u32_or_zero(o: Option<u32>) -> u32 {
    match o {
        Some(v) => v,
        None => 0,
    }
}

/// The words of a KRC text part `<start,duration,0>word<...>word...`, and
/// their concatenated text.  Scanning stops at the end, at a `<` without a
/// later `>`, or at a tag without a `,`; text before the first tag is
/// dropped; a field that is not a number counts as 0; each word runs up to
/// the next `<`.
pub open spec fn krc_words_spec(rem: Seq<char>) -> (Seq<LyricWordView>, Seq<char>)
    decreases rem.len(),
{
    if rem.len() == 0 {
        (seq![], seq![])
    } else {
        match index_of(rem, '<') {
            None => (seq![], seq![]),
            Some(a) => {
                let after = rem.subrange(a + 1, rem.len() as int);
                match index_of(after, '>') {
                    None => (seq![], seq![]),
                    Some(b) => {
                        let parts = split(after.subrange(0, b), ',');
                        if parts.len() < 2 {
                            (seq![], seq![])
                        } else {
                            let rest = rem.subrange(a + b + 2, rem.len() as int);
                            let te = match index_of(rest, '<') {
                                Some(k) => k,
                                None => rest.len() as int,
                            };
                            let word = LyricWordView {
                                text: rest.subrange(0, te),
                                start: u32_or_zero(parse_u32_spec(parts[0])),
                                duration: u32_or_zero(parse_u32_spec(parts[1])),
                            };
                            let tail = krc_words_spec(rest.subrange(te, rest.len() as int));
                            (seq![word] + tail.0, word.text + tail.1)
                        }
                    },
                }
            },
        }
    }
}

/// Where the scan of `<c>w rest` finds its marks: the `<` first, the `>`
/// right after `c`, the tag's pieces, and the end of the word.
proof fn lemma_krc_word_marks(c: Seq<char>, w: Seq<char>, rest: Seq<char>)
    requires
        !c.contains('>'),
        c.contains(','),
        !w.contains('<'),
        rest.len() == 0 || rest[0] == '<',
    ensures
        ({
            let rem = seq!['<'] + c + seq!['>'] + w + rest;
            let after = rem.subrange(1, rem.len() as int);
            let r2 = rem.subrange(c.len() as int + 2, rem.len() as int);
            &&& index_of(rem, '<') == Some(0int)
            &&& index_of(after, '>') == Some(c.len() as int)
            &&& after.subrange(0, c.len() as int) == c
            &&& split(c, ',').len() >= 2
            &&& r2 == w + rest
            &&& (match index_of(r2, '<') {
                Some(k) => k,
                None => r2.len() as int,
            }) == w.len()
            &&& r2.subrange(0, w.len() as int) == w
            &&& r2.subrange(w.len() as int, r2.len() as int) == rest
        }),
{
    let rem = seq!['<'] + c + seq!['>'] + w + rest;
    crate::text::lemma_index_of_some(rem, '<', 0);
    let after = rem.subrange(1, rem.len() as int);
    assert(after =~= c + seq!['>'] + w + rest);
    let b = c.len() as int;
    assert forall|j: int| 0 <= j < b implies after[j] != '>' by {
        assert(after[j] == c[j]);
        if after[j] == '>' {
            assert(c.contains('>'));
        }
    }
    crate::text::lemma_index_of_some(after, '>', b);
    assert(after.subrange(0, b) =~= c);
    let i = choose|i: int| 0 <= i < c.len() && c[i] == ',';
    crate::text::lemma_index_of_exists(c, ',', i);
    let k = index_of(c, ',')->0;
    lemma_split_nonempty(c.subrange(k + 1, c.len() as int), ',');
    let r2 = rem.subrange(b + 2, rem.len() as int);
    assert(r2 =~= w + rest);
    let wl = w.len() as int;
    if rest.len() > 0 {
        assert forall|j: int| 0 <= j < wl implies r2[j] != '<' by {
            assert(r2[j] == w[j]);
            if r2[j] == '<' {
                assert(w.contains('<'));
            }
        }
        crate::text::lemma_index_of_some(r2, '<', wl);
    } else {
        assert(r2 =~= w);
        assert forall|j: int| 0 <= j < r2.len() implies r2[j] != '<' by {
            if r2[j] == '<' {
                assert(w.contains('<'));
            }
        }
        crate::text::lemma_index_of_none(r2, '<');
    }
    assert(r2.subrange(0, wl) =~= w);
    assert(r2.subrange(wl, r2.len() as int) =~= rest);
}

/// One word of a KRC text part: a tag `<c>` whose contents hold a `,` and no
/// `>`, then the word `w` (no `<`), then the rest, empty or at the next tag.
/// The word's text is `w` exactly, whitespace and all, and the text gains `w`
/// in front of what the rest gives.
pub proof fn law_krc_word_text_kept(c: Seq<char>, w: Seq<char>, rest: Seq<char>)
    requires
        !c.contains('>'),
        c.contains(','),
        !w.contains('<'),
        rest.len() == 0 || rest[0] == '<',
    ensures
        ({
            let r = krc_words_spec(seq!['<'] + c + seq!['>'] + w + rest);
            &&& r.0.len() == krc_words_spec(rest).0.len() + 1
            &&& r.0[0].text == w
            &&& r.0.drop_first() == krc_words_spec(rest).0
            &&& r.1 == w + krc_words_spec(rest).1
        }),
{
    lemma_krc_word_marks(c, w, rest);
    let rem = seq!['<'] + c + seq!['>'] + w + rest;
    let r = krc_words_spec(rem);
    assert(rem.len() > 0);
    assert(r.0.drop_first() =~= krc_words_spec(rest).0);
}

proof fn lemma_decimal_digits(n: nat)
    ensures
        crate::format::decimal(n).len() > 0,
        crate::text::all_ascii_digits(crate::format::decimal(n)),
        crate::text::digits_value(crate::format::decimal(n)) == n,
        !crate::format::decimal(n).contains(','),
        crate::format::decimal(n)[0] != '+',
    decreases n,
{
    let s = crate::format::decimal(n);
    if n < 10 {
        let c = crate::format::digit_char(n);
        assert(((n + 48) as u8) as char as int == n + 48);
        assert(s == seq![c]);
        assert(s.drop_last() =~= Seq::<char>::empty());
        assert(s.last() == c);
        assert(crate::text::digits_value(s) == crate::text::digits_value(s.drop_last()) * 10 + (
        s.last() as int - '0' as int));
    } else {
        lemma_decimal_digits(n / 10);
        let t = crate::format::decimal(n / 10);
        let d = (n % 10) as nat;
        let c = crate::format::digit_char(d);
        assert(((d + 48) as u8) as char as int == d + 48);
        assert(s == t.push(c));
        assert(s.drop_last() =~= t);
        assert(s.last() == c);
        assert(s[0] == t[0]);
        assert(crate::text::digits_value(s) == crate::text::digits_value(t) * 10 + (c as int
            - '0' as int));
        assert((n / 10) * 10 + d == n) by (nonlinear_arith)
            requires
                d == n % 10,
        ;
        assert forall|i: int| 0 <= i < s.len() implies crate::text::is_ascii_digit(#[trigger] s[i]) by {
            if i < t.len() {
                assert(s[i] == t[i]);
            }
        }
        if s.contains(',') {
            let i = choose|i: int| 0 <= i < s.len() && s[i] == ',';
            if i < t.len() {
                assert(s[i] == t[i]);
                assert(t.contains(','));
            }
        }
    }
}

/// The pieces of a tag `a,b,0` whose `a` and `b` hold no `,`.
proof fn lemma_krc_tag_pieces(a: Seq<char>, b: Seq<char>)
    requires
        !a.contains(','),
        !b.contains(','),
    ensures
        split(a + seq![','] + b + seq![',', '0'], ',').len() >= 2,
        split(a + seq![','] + b + seq![',', '0'], ',')[0] == a,
        split(a + seq![','] + b + seq![',', '0'], ',')[1] == b,
{
    let c = a + seq![','] + b + seq![',', '0'];
    assert forall|j: int| 0 <= j < a.len() implies c[j] != ',' by {
        assert(c[j] == a[j]);
        if c[j] == ',' {
            assert(a.contains(','));
        }
    }
    assert(c[a.len() as int] == ',');
    crate::text::lemma_index_of_some(c, ',', a.len() as int);
    assert(c.subrange(0, a.len() as int) =~= a);
    let c1 = c.subrange(a.len() as int + 1, c.len() as int);
    assert(c1 =~= b + seq![',', '0']);
    assert forall|j: int| 0 <= j < b.len() implies c1[j] != ',' by {
        assert(c1[j] == b[j]);
        if c1[j] == ',' {
            assert(b.contains(','));
        }
    }
    assert(c1[b.len() as int] == ',');
    crate::text::lemma_index_of_some(c1, ',', b.len() as int);
    assert(c1.subrange(0, b.len() as int) =~= b);
    let c2 = c1.subrange(b.len() as int + 1, c1.len() as int);
    lemma_split_nonempty(c2, ',');
    assert(split(c, ',') == seq![a] + split(c1, ','));
    assert(split(c1, ',') == seq![b] + split(c2, ','));
}

/// A KRC word tag `<s,d,0>` written with decimal numbers gives the word its
/// start offset `s` and duration `d`.
pub proof fn law_krc_word_timing(s: u32, d: u32, w: Seq<char>, rest: Seq<char>)
    requires
        !w.contains('<'),
        rest.len() == 0 || rest[0] == '<',
    ensures
        ({
            let c = crate::format::decimal(s as nat) + seq![','] + crate::format::decimal(d as nat)
                + seq![',', '0'];
            let r = krc_words_spec(seq!['<'] + c + seq!['>'] + w + rest);
            &&& r.0.len() > 0
            &&& r.0[0].start == s
            &&& r.0[0].duration == d
            &&& r.0[0].text == w
        }),
{
    let a = crate::format::decimal(s as nat);
    let b = crate::format::decimal(d as nat);
    let c = a + seq![','] + b + seq![',', '0'];
    lemma_decimal_digits(s as nat);
    lemma_decimal_digits(d as nat);
    assert(!c.contains('>')) by {
        if c.contains('>') {
            let i = choose|i: int| 0 <= i < c.len() && c[i] == '>';
            if i < a.len() {
                assert(c[i] == a[i]);
                assert(crate::text::is_ascii_digit(a[i]));
            } else if i > a.len() && i < a.len() + 1 + b.len() {
                assert(c[i] == b[i - a.len() - 1]);
                assert(crate::text::is_ascii_digit(b[i - a.len() - 1]));
            }
        }
    }
    assert(c[a.len() as int] == ',');
    assert(c.contains(','));
    lemma_krc_word_marks(c, w, rest);
    lemma_krc_tag_pieces(a, b);
    assert(crate::text::parse_u32_spec(a) == Some(s));
    assert(crate::text::parse_u32_spec(b) == Some(d));
    let rem = seq!['<'] + c + seq!['>'] + w + rest;
    assert(rem.len() > 0);
}

/// A KRC text part written out from (tag contents, word) pairs.
pub open spec fn krc_tagged(items: Seq<(Seq<char>, Seq<char>)>) -> Seq<char>
    decreases items.len(),
{
    if items.len() == 0 {
        seq![]
    } else {
        seq!['<'] + items[0].0 + seq!['>'] + items[0].1 + krc_tagged(items.drop_first())
    }
}

/// The words of such pairs, one after another.
pub open spec fn words_joined(items: Seq<(Seq<char>, Seq<char>)>) -> Seq<char>
    decreases items.len(),
{
    if items.len() == 0 {
        seq![]
    } else {
        items[0].1 + words_joined(items.drop_first())
    }
}

/// The words of a KRC text part are exactly the texts between the tags, with
/// their whitespace, and the line's text is the part with its tags removed.
pub proof fn law_krc_text_is_untagged(items: Seq<(Seq<char>, Seq<char>)>)
    requires
        forall|i: int|
            0 <= i < items.len() ==> !(#[trigger] items[i]).0.contains('>') && items[i].0.contains(
                ',',
            ) && !items[i].1.contains('<'),
    ensures
        krc_words_spec(krc_tagged(items)).0.len() == items.len(),
        forall|i: int|
            0 <= i < items.len() ==> #[trigger] krc_words_spec(krc_tagged(items)).0[i].text
                == items[i].1,
        krc_words_spec(krc_tagged(items)).1 == words_joined(items),
    decreases items.len(),
{
    if items.len() > 0 {
        let tail = items.drop_first();
        assert forall|i: int| 0 <= i < tail.len() implies !(#[trigger] tail[i]).0.contains('>')
            && tail[i].0.contains(',') && !tail[i].1.contains('<') by {
            assert(tail[i] == items[i + 1]);
        }
        law_krc_text_is_untagged(tail);
        let rest = krc_tagged(tail);
        if tail.len() > 0 {
            assert(rest[0] == '<');
        }
        assert(items[0] == items[0]);
        law_krc_word_text_kept(items[0].0, items[0].1, rest);
        assert(krc_tagged(items) =~= seq!['<'] + items[0].0 + seq!['>'] + items[0].1 + rest);
        let r = krc_words_spec(krc_tagged(items));
        assert forall|i: int| 0 <= i < items.len() implies #[trigger] r.0[i].text == items[i].1 by {
            if i > 0 {
                assert(r.0[i] == r.0.drop_first()[i - 1]);
                assert(tail[i - 1] == items[i]);
            }
        }
    }
}

/// Word highlighting only grows with the position: a word highlighted at
/// `p1` stays highlighted at every later `p2`, whatever the line's duration.
pub proof fn law_highlights_only_grow(ls: Seq<LyricLineView>, idx: int, p1: u32, p2: u32, j: int)
    requires
        p1 <= p2,
        word_highlights_spec(ls, p1, idx) matches Some(h) && 0 <= j < h.len() && h[j].highlighted,
    ensures
        word_highlights_spec(ls, p2, idx) matches Some(h) && 0 <= j < h.len() && h[j].highlighted,
{
}

/// From the position where a word starts being sung (the line's start plus
/// the word's offset) on, the word is highlighted; once the line has started,
/// not before.  Every word of the line is listed, with its text.
pub proof fn law_word_lit_from_its_start(ls: Seq<LyricLineView>, idx: int, pos: u32, j: int)
    requires
        0 <= idx < ls.len(),
        0 <= j < ls[idx].words.len(),
    ensures
        word_highlights_spec(ls, pos, idx) matches Some(h) && h.len() == ls[idx].words.len()
            && h[j].text == ls[idx].words[j].text && (pos >= ls[idx].start + ls[idx].words[j].start
            ==> h[j].highlighted) && (pos >= ls[idx].start ==> (h[j].highlighted <==> pos
            >= ls[idx].start + ls[idx].words[j].start)),
{
}

/// The first word of a non-empty KRC text part and how many characters it
/// takes up, or `None` where scanning stops.
fn krc_next_word(rem: &[char]) -> (r: Option<(LyricWord, usize)>)
    requires
        rem@.len() > 0,
    ensures
        match r {
            Some((w, k)) => {
                &&& 0 < k <= rem@.len()
                &&& krc_words_spec(rem@).0 == seq![w@] + krc_words_spec(
                    rem@.subrange(k as int, rem@.len() as int),
                ).0
                &&& krc_words_spec(rem@).1 == w@.text + krc_words_spec(
                    rem@.subrange(k as int, rem@.len() as int),
                ).1
            },
            None => krc_words_spec(rem@).0 == Seq::<LyricWordView>::empty()
                && krc_words_spec(rem@).1 == Seq::<char>::empty(),
        },
{
    let a = match find_char(rem, '<') {
        Some(a) => a,
        None => return None,
    };
    let after = &rem[a + 1..rem.len()];
    let b = match find_char(after, '>') {
        Some(b) => b,
        None => return None,
    };
    let tag = &after[0..b];
    proof {
        lemma_split_whole(tag@);
    }
    let (c, more) = next_piece(tag, 0, ',');
    if !more {
        return None;
    }
    let (c2, _more2) = next_piece(tag, c + 1, ',');
    let ghost parts = split(tag@, ',');
    proof {
        lemma_split_nonempty(tag@.subrange(c + 1, tag@.len() as int), ',');
    }
    assert(parts[0] == tag@.subrange(0, c as int));
    assert(parts[1] == tag@.subrange(c + 1, c2 as int));
    let word_start = match parse_u32(&tag[0..c]) {
        Some(v) => v,
        None => 0,
    };
    let word_duration = match parse_u32(&tag[c + 1..c2]) {
        Some(v) => v,
        None => 0,
    };
    let ts = a + b + 2;
    let rest = &rem[ts..rem.len()];
    let te = match find_char(rest, '<') {
        Some(k) => k,
        None => rest.len(),
    };
    let word_text = string_of(&rest[0..te]);
    let w = LyricWord { text: word_text, start: word_start, duration: word_duration };
    proof {
        assert(rest@.subrange(te as int, rest@.len() as int) =~= rem@.subrange(
            (ts + te) as int,
            rem@.len() as int,
        ));
    }
    Some((w, ts + te))
}

pub fn parse_krc_words_chars(text: &[char]) -> (r: (Vec<LyricWord>, String))
    ensures
        words_view(r.0@) == krc_words_spec(text@).0,
        r.1@ == krc_words_spec(text@).1,
{
    let n = text.len();
    let mut words: Vec<LyricWord> = Vec::new();
    let mut full = String::new();
    let mut pos: usize = 0;
    assert(text@.subrange(0, n as int) =~= text@);
    assert(words_view(words@) =~= seq![]);
    while pos < n
        invariant
            pos <= n == text@.len(),
            krc_words_spec(text@).0 == words_view(words@) + krc_words_spec(
                text@.subrange(pos as int, n as int),
            ).0,
            krc_words_spec(text@).1 == full@ + krc_words_spec(
                text@.subrange(pos as int, n as int),
            ).1,
        decreases n - pos,
    {
        let rem = &text[pos..n];
        match krc_next_word(rem) {
            None => {
                proof {
                    assert(words_view(words@) + krc_words_spec(rem@).0 =~= words_view(words@));
                    assert(full@ + krc_words_spec(rem@).1 =~= full@);
                }
                return (words, full);
            },
            Some((w, k)) => {
                let ghost old_words = words@;
                let ghost old_full = full@;
                full.append(w.text.as_str());
                let ghost wv = w@;
                words.push(w);
                proof {
                    assert(rem@.subrange(k as int, rem@.len() as int) =~= text@.subrange(
                        (pos + k) as int,
                        n as int,
                    ));
                    assert(words_view(words@) =~= words_view(old_words).push(wv));
                    let tl = krc_words_spec(text@.subrange((pos + k) as int, n as int));
                    assert(words_view(old_words) + (seq![wv] + tl.0) =~= words_view(words@)
                        + tl.0);
                    assert(old_full + (wv.text + tl.1) =~= full@ + tl.1);
                }
                pos = pos + k;
            },
        }
    }
    proof {
        let tl = krc_words_spec(text@.subrange(pos as int, n as int));
        assert(text@.subrange(pos as int, n as int).len() == 0);
        assert(words_view(words@) + tl.0 =~= words_view(words@));
        assert(full@ + tl.1 =~= full@);
    }
    (words, full)
}

/// Reads the word tags of a KRC line's text part (see `krc_words_spec`).
pub fn parse_krc_words(text: &str) -> (r: (Vec<LyricWord>, String))
    ensures
        words_view(r.0@) == krc_words_spec(text@).0,
        r.1@ == krc_words_spec(text@).1,
{
    let cs = chars_of(text);
    parse_krc_words_chars(cs.as_slice())
}


/// A KRC line `[start,duration]<...>word...`: exactly one `,` between the
/// brackets, both numbers `u32`, and the words after the first `]`.
pub open spec fn parse_krc_line_spec(line: Seq<char>) -> Option<LyricLineView> {
    match index_of(line, ']') {
        Some(e) => {
            let parts = split(line.subrange(1, e), ',');
            if parts.len() != 2 {
                None
            } else {
                match (parse_u32_spec(parts[0]), parse_u32_spec(parts[1])) {
                    (Some(st), Some(d)) => {
                        let ws = krc_words_spec(line.subrange(e + 1, line.len() as int));
                        Some(LyricLineView { start: st, duration: d, words: ws.0, text: ws.1 })
                    },
                    _ => None,
                }
            }
        },
        None => None,
    }
}

pub fn parse_krc_line_chars(line: &[char]) -> (r: Option<LyricLine>)
    requires
        bracket_slice_ok(line@),
    ensures
        match r {
            Some(l) => parse_krc_line_spec(line@) == Some(l@),
            None => parse_krc_line_spec(line@) == None::<LyricLineView>,
        },
{
    let e = match find_char(line, ']') {
        Some(e) => e,
        None => return None,
    };
    let t = &line[1..e];
    proof {
        lemma_split_whole(t@);
    }
    let (c, more) = next_piece(t, 0, ',');
    if !more {
        return None;
    }
    let (c2, more2) = next_piece(t, c + 1, ',');
    if more2 {
        proof {
            lemma_split_nonempty(t@.subrange(c2 + 1, t@.len() as int), ',');
        }
        return None;
    }
    let ghost parts = split(t@, ',');
    assert(parts.len() == 2);
    assert(parts[0] == t@.subrange(0, c as int));
    assert(parts[1] == t@.subrange(c + 1, t@.len() as int));
    let start = match parse_u32(&t[0..c]) {
        Some(v) => v,
        None => return None,
    };
    let duration = match parse_u32(&t[c + 1..t.len()]) {
        Some(v) => v,
        None => return None,
    };
    let (words, text) = parse_krc_words_chars(&line[e + 1..line.len()]);
    Some(LyricLine { start, duration, words, text })
}

/// Reads a KRC line (see `parse_krc_line_spec`).
pub fn parse_krc_line(line: &str) -> (r: Option<LyricLine>)
    requires
        bracket_slice_ok(line@),
    ensures
        match r {
            Some(l) => parse_krc_line_spec(line@) == Some(l@),
            None => parse_krc_line_spec(line@) == None::<LyricLineView>,
        },
{
    let cs = chars_of(line);
    parse_krc_line_chars(cs.as_slice())
}

// ---------------------------------------------------------------------------
// Whole files
// ---------------------------------------------------------------------------

/// The lyric file formats, told apart by file extension.
#[derive(Debug, Clone, Copy, PartialEq, Eq, Structural)]
pub enum LyricFormat {
    /// `.lrc`: plain text, `[mm:ss.xx]text` lines.
    Lrc,
    /// `.krc`: encrypted and compressed, `[start,duration]` lines with word tags.
    Krc,
    /// `.qrc`: plain text, `[time]text` lines.
    Qrc,
}

pub open spec fn ti_tag() -> Seq<char> {
    seq!['[', 't', 'i', ':']
}

pub open spec fn ar_tag() -> Seq<char> {
    seq!['[', 'a', 'r', ':']
}

pub open spec fn offset_tag() -> Seq<char> {
    seq!['[', 'o', 'f', 'f', 's', 'e', 't', ':']
}

pub open spec fn push_line(acc: LyricsView, l: LyricLineView) -> LyricsView {
    LyricsView { lines: acc.lines.push(l), ..acc }
}

/// The line that an LRC entry becomes before durations are known: one word
/// holding the whole text.
pub open spec fn lrc_entry(t: int, text: Seq<char>) -> LyricLineView {
    LyricLineView {
        start: t as u32,
        duration: 0,
        words: seq![LyricWordView { text, start: 0, duration: 0 }],
        text,
    }
}

/// What one (trimmed) line of a file adds: a title from `[ti:`, an artist
/// from `[ar:` (in LRC only a readable tag replaces the earlier one), nothing
/// from a KRC `[offset:`, else a lyric line when the line parses.
pub open spec fn format_step(fmt: LyricFormat, acc: LyricsView, line: Seq<char>) -> LyricsView {
    if starts_with(line, ti_tag()) {
        match fmt {
            LyricFormat::Lrc => match extract_meta_spec(line) {
                Some(t) => LyricsView { title: Some(t), ..acc },
                None => acc,
            },
            _ => LyricsView { title: extract_meta_spec(line), ..acc },
        }
    } else if starts_with(line, ar_tag()) {
        match fmt {
            LyricFormat::Lrc => match extract_meta_spec(line) {
                Some(a) => LyricsView { artist: Some(a), ..acc },
                None => acc,
            },
            _ => LyricsView { artist: extract_meta_spec(line), ..acc },
        }
    } else {
        match fmt {
            LyricFormat::Lrc => match parse_lrc_line_spec(line) {
                Some((t, text)) => push_line(acc, lrc_entry(t, text)),
                None => acc,
            },
            LyricFormat::Qrc => match parse_qrc_line_spec(line) {
                Some(l) => push_line(acc, l),
                None => acc,
            },
            LyricFormat::Krc => if starts_with(line, offset_tag()) {
                acc
            } else {
                match parse_krc_line_spec(line) {
                    Some(l) => push_line(acc, l),
                    None => acc,
                }
            },
        }
    }
}

/// The lyrics gathered from `ls`, each line trimmed, in order.
pub open spec fn format_scan(fmt: LyricFormat, ls: Seq<Seq<char>>) -> LyricsView
    decreases ls.len(),
{
    if ls.len() == 0 {
        empty_lyrics()
    } else {
        format_step(fmt, format_scan(fmt, ls.drop_last()), trim(ls.last()))
    }
}

/// The line parser of `fmt` neither slices inside a character nor overflows.
pub open spec fn line_fits(fmt: LyricFormat, line: Seq<char>) -> bool {
    match fmt {
        LyricFormat::Lrc => lrc_line_fits(line),
        LyricFormat::Qrc => qrc_line_fits(line),
        LyricFormat::Krc => bracket_slice_ok(line),
    }
}

pub open spec fn all_lines_fit(fmt: LyricFormat, content: Seq<char>) -> bool {
    forall|i: int| 0 <= i < lines(content).len() ==> line_fits(fmt, trim(#[trigger] lines(content)[i]))
}

fn apply_line(fmt: LyricFormat, lyrics: &mut Lyrics, raw: &[char])
    requires
        line_fits(fmt, trim(raw@)),
    ensures
        final(lyrics)@ == format_step(fmt, old(lyrics)@, trim(raw@)),
{
    let line = trim_chars(raw);
    let ti: [char; 4] = ['[', 't', 'i', ':'];
    let ar: [char; 4] = ['[', 'a', 'r', ':'];
    let off: [char; 8] = ['[', 'o', 'f', 'f', 's', 'e', 't', ':'];
    assert(ti@ =~= ti_tag());
    assert(ar@ =~= ar_tag());
    assert(off@ =~= offset_tag());
    let ghost old_lines = lyrics.lines@;
    if starts_with_chars(line, ti.as_slice()) {
        let m = extract_meta_chars(line);
        match fmt {
            LyricFormat::Lrc => {
                if m.is_some() {
                    lyrics.title = m;
                }
            },
            _ => {
                lyrics.title = m;
            },
        }
        return;
    }
    if starts_with_chars(line, ar.as_slice()) {
        let m = extract_meta_chars(line);
        match fmt {
            LyricFormat::Lrc => {
                if m.is_some() {
                    lyrics.artist = m;
                }
            },
            _ => {
                lyrics.artist = m;
            },
        }
        return;
    }
    match fmt {
        LyricFormat::Lrc => {
            if let Some((t, text)) = parse_lrc_line_chars(line) {
                let word = LyricWord { text: text.clone(), start: 0, duration: 0 };
                let l = LyricLine { start: t, duration: 0, words: vec![word], text };
                assert(l@.words =~= seq![LyricWordView { text: l@.text, start: 0, duration: 0 }]);
                lyrics.lines.push(l);
                assert(lines_view(lyrics.lines@) =~= lines_view(old_lines).push(l@));
            }
        },
        LyricFormat::Qrc => {
            if let Some(l) = parse_qrc_line_chars(line) {
                lyrics.lines.push(l);
                assert(lines_view(lyrics.lines@) =~= lines_view(old_lines).push(l@));
            }
        },
        LyricFormat::Krc => {
            if starts_with_chars(line, off.as_slice()) {
                return;
            }
            if let Some(l) = parse_krc_line_chars(line) {
                lyrics.lines.push(l);
                assert(lines_view(lyrics.lines@) =~= lines_view(old_lines).push(l@));
            }
        },
    }
}

/// Applies every line of `cs` in order.
fn scan_content(fmt: LyricFormat, cs: &[char]) -> (r: Lyrics)
    requires
        all_lines_fit(fmt, cs@),
    ensures
        r@ == format_scan(fmt, lines(cs@)),
{
    let n = cs.len();
    let mut lyrics = Lyrics::empty();
    let mut pos: usize = 0;
    let ghost mut done: Seq<Seq<char>> = seq![];
    assert(cs@.subrange(0, n as int) =~= cs@);
    assert(lines(cs@) =~= done + crate::text::split(cs@.subrange(0, n as int), '\n'));
    loop
        invariant
            pos <= n == cs@.len(),
            lines(cs@) == done + crate::text::split(cs@.subrange(pos as int, n as int), '\n'),
            lyrics@ == format_scan(fmt, done),
            all_lines_fit(fmt, cs@),
        decreases n - pos,
    {
        let (end, more) = next_piece(cs, pos, '\n');
        let raw = &cs[pos..end];
        proof {
            assert(lines(cs@)[done.len() as int] == raw@);
            assert(line_fits(fmt, trim(lines(cs@)[done.len() as int])));
        }
        apply_line(fmt, &mut lyrics, raw);
        proof {
            assert(done.push(raw@).drop_last() =~= done);
            done = done.push(raw@);
        }
        if !more {
            assert(lines(cs@) =~= done);
            return lyrics;
        }
        proof {
            assert(lines(cs@) =~= done + crate::text::split(cs@.subrange(end + 1, n as int), '\n'));
        }
        pos = end + 1;
    }
}


/// Line starts never decrease.
pub open spec fn starts_sorted(ls: Seq<LyricLineView>) -> bool {
    forall|i: int, j: int| 0 <= i <= j < ls.len() ==> (#[trigger] ls[i]).start <= (#[trigger] ls[j]).start
}

/// LRC durations: each line lasts until the next one starts, the last one
/// 5000 ms.
pub open spec fn with_lrc_durations(ls: Seq<LyricLineView>) -> Seq<LyricLineView> {
    Seq::new(
        ls.len(),
        |i: int|
            LyricLineView {
                duration: if i + 1 < ls.len() {
                    (ls[i + 1].start - ls[i].start) as u32
                } else {
                    5000
                },
                ..ls[i]
            },
    )
}

/// The lyrics of an LRC file's text.
pub open spec fn parse_lrc_spec(content: Seq<char>) -> LyricsView {
    let acc = format_scan(LyricFormat::Lrc, lines(content));
    LyricsView { lines: with_lrc_durations(acc.lines), ..acc }
}

/// Parsing the text in format `fmt` neither slices inside a character nor
/// overflows; for LRC the line starts must also never decrease, since each
/// duration is the next start minus this one.
pub open spec fn content_fits_spec(fmt: LyricFormat, content: Seq<char>) -> bool {
    &&& all_lines_fit(fmt, content)
    &&& fmt == LyricFormat::Lrc ==> starts_sorted(format_scan(LyricFormat::Lrc, lines(content)).lines)
}

/// In LRC lyrics whose starts never decrease, each line ends exactly where
/// the next begins, and the last one lasts 5000 ms.
pub proof fn law_lrc_lines_tile(ls: Seq<LyricLineView>)
    requires
        starts_sorted(ls),
    ensures
        with_lrc_durations(ls).len() == ls.len(),
        forall|i: int|
            0 <= i < ls.len() - 1 ==> #[trigger] with_lrc_durations(ls)[i].start
                + with_lrc_durations(ls)[i].duration == with_lrc_durations(ls)[i + 1].start,
        ls.len() > 0 ==> with_lrc_durations(ls).last().duration == 5000,
{
    let d = with_lrc_durations(ls);
    assert forall|i: int| 0 <= i < ls.len() - 1 implies #[trigger] d[i].start + d[i].duration
        == d[i + 1].start by {
        assert(ls[i].start <= ls[i + 1].start);
    }
}

/// In such LRC lyrics the line on screen is the last one started: at a
/// position from the start of line `i` up to the start of the next line (or,
/// for the last line, for 5000 ms), `find_line` gives `i`, provided that
/// line has not the same start as the next.
pub proof fn law_lrc_current_line(ls: Seq<LyricLineView>, i: int, pos: int)
    requires
        starts_sorted(ls),
        0 <= i < ls.len(),
        i + 1 < ls.len() ==> ls[i].start <= pos < ls[i + 1].start,
        i + 1 == ls.len() ==> ls[i].start <= pos < ls[i].start + 5000,
    ensures
        find_line_spec(with_lrc_durations(ls), pos) == Some(i),
{
    let d = with_lrc_durations(ls);
    law_lrc_lines_tile(ls);
    assert(line_covers(d[i], pos));
    assert forall|j: int| 0 <= j < i implies !line_covers(#[trigger] d[j], pos) by {
        assert(d[j].start + d[j].duration == d[j + 1].start);
        assert(ls[j + 1].start <= ls[i].start);
    }
    assert(is_first_cover(d, pos, i));
    lemma_first_cover_unique(d, pos, i);
}

fn fill_lrc_durations(lyrics: &mut Lyrics)
    requires
        starts_sorted(old(lyrics)@.lines),
    ensures
        final(lyrics)@ == (LyricsView { lines: with_lrc_durations(old(lyrics)@.lines), ..old(lyrics)@ }),
{
    let ghost orig = lyrics@.lines;
    let n = lyrics.lines.len();
    let mut i: usize = 0;
    while i < n
        invariant
            i <= n == lyrics.lines@.len() == orig.len(),
            starts_sorted(orig),
            lyrics.title == old(lyrics).title,
            lyrics.artist == old(lyrics).artist,
            orig == old(lyrics)@.lines,
            forall|j: int| 0 <= j < i ==> (#[trigger] lyrics.lines@[j])@ == with_lrc_durations(orig)[j],
            forall|j: int| i <= j < n ==> (#[trigger] lyrics.lines@[j])@ == orig[j],
        decreases n - i,
    {
        assert(lyrics.lines@[i as int]@ == orig[i as int]);
        let d: u32 = if i + 1 < n {
            assert(lyrics.lines@[i + 1]@ == orig[i + 1]);
            assert(orig[i as int].start <= orig[i + 1].start);
            lyrics.lines[i + 1].start - lyrics.lines[i].start
        } else {
            5000
        };
        let ghost prev = lyrics.lines@;
        lyrics.lines[i].duration = d;
        proof {
            assert forall|j: int| 0 <= j < n && j != i implies lyrics.lines@[j] == prev[j] by {}
            assert(lyrics.lines@[i as int]@ == with_lrc_durations(orig)[i as int]);
        }
        i = i + 1;
    }
    assert(lyrics@.lines =~= with_lrc_durations(orig)) by {
        assert forall|j: int| 0 <= j < n implies lyrics@.lines[j] == with_lrc_durations(orig)[j] by {
            assert(lyrics.lines@[j]@ == with_lrc_durations(orig)[j]);
        }
    }
}

/// Parses the text of an `.lrc` file: `[ti:]`/`[ar:]` tags and
/// `[mm:ss.xx]text` lines; each line lasts until the next one starts.
pub fn parse_lrc_content(content: &str) -> (r: Option<Lyrics>)
    requires
        content_fits_spec(LyricFormat::Lrc, content@),
    ensures
        r matches Some(l) && l@ == parse_lrc_spec(content@),
{
    let cs = chars_of(content);
    let mut lyrics = scan_content(LyricFormat::Lrc, cs.as_slice());
    fill_lrc_durations(&mut lyrics);
    Some(lyrics)
}

/// Parses the text of a `.qrc` file: `[ti:]`/`[ar:]` tags and `[time]text`
/// lines.
pub fn parse_qrc_content(content: &str) -> (r: Option<Lyrics>)
    requires
        content_fits_spec(LyricFormat::Qrc, content@),
    ensures
        r matches Some(l) && l@ == format_scan(LyricFormat::Qrc, lines(content@)),
{
    let cs = chars_of(content);
    Some(scan_content(LyricFormat::Qrc, cs.as_slice()))
}

/// Parses the decrypted text of a `.krc` file: `[ti:]`/`[ar:]`/`[offset:]`
/// tags and `[start,duration]<start,duration,0>word...` lines.
pub fn parse_krc_content(content: &str) -> (r: Option<Lyrics>)
    requires
        content_fits_spec(LyricFormat::Krc, content@),
    ensures
        r matches Some(l) && l@ == format_scan(LyricFormat::Krc, lines(content@)),
{
    let cs = chars_of(content);
    Some(scan_content(LyricFormat::Krc, cs.as_slice()))
}

fn bracket_slice_ok_chars(line: &[char]) -> (b: bool)
    ensures
        b == bracket_slice_ok(line@),
{
    match find_char(line, ']') {
        Some(e) => e >= 1 && (line[0] as u32) < 0x80,
        None => true,
    }
}

fn line_fits_chars(fmt: LyricFormat, line: &[char]) -> (b: bool)
    ensures
        b == line_fits(fmt, line@),
{
    if !bracket_slice_ok_chars(line) {
        return false;
    }
    let e = match find_char(line, ']') {
        Some(e) => e,
        None => return true,
    };
    let t = &line[1..e];
    match fmt {
        LyricFormat::Krc => true,
        LyricFormat::Lrc => match parse_clock(t) {
            Some(v) => v <= 0xffff_ffffu64,
            None => true,
        },
        LyricFormat::Qrc => {
            if find_char(t, ',').is_some() || parse_u32(t).is_some() {
                return true;
            }
            match parse_clock(t) {
                Some(v) => v <= 0xffff_ffffu64,
                None => true,
            }
        },
    }
}

proof fn lemma_sorted_push(ls: Seq<LyricLineView>, l: LyricLineView)
    requires
        starts_sorted(ls),
        ls.len() > 0 ==> ls.last().start <= l.start,
    ensures
        starts_sorted(ls.push(l)),
{
    let ns = ls.push(l);
    assert forall|i: int, j: int| 0 <= i <= j < ns.len() implies (#[trigger] ns[i]).start <= (
    #[trigger] ns[j]).start by {
        if j == ls.len() && i < j {
            assert(ls[i].start <= ls[ls.len() - 1].start);
        }
    }
}

proof fn lemma_unsorted_push(ls: Seq<LyricLineView>, l: LyricLineView)
    requires
        !starts_sorted(ls) || (ls.len() > 0 && ls.last().start > l.start),
    ensures
        !starts_sorted(ls.push(l)),
{
    let ns = ls.push(l);
    if !starts_sorted(ls) {
        let (i, j) = choose|i: int, j: int|
            0 <= i <= j < ls.len() && !((#[trigger] ls[i]).start <= (#[trigger] ls[j]).start);
        assert(ns[i] == ls[i] && ns[j] == ls[j]);
    } else {
        assert(ns[ls.len() - 1] == ls.last());
        assert(ns[ls.len() as int] == l);
    }
}

/// Whether `content` can be parsed in format `fmt` (see `content_fits_spec`).
pub fn content_fits(fmt: LyricFormat, content: &str) -> (b: bool)
    ensures
        b == content_fits_spec(fmt, content@),
{
    let cs = chars_of(content);
    let cs = cs.as_slice();
    let n = cs.len();
    let mut pos: usize = 0;
    let ghost mut done: Seq<Seq<char>> = seq![];
    let mut sorted = true;
    let mut last: Option<u32> = None;
    assert(cs@.subrange(0, n as int) =~= cs@);
    assert(lines(cs@) =~= done + crate::text::split(cs@.subrange(0, n as int), '\n'));
    loop
        invariant
            pos <= n == cs@.len(),
            cs@ == content@,
            lines(cs@) == done + crate::text::split(cs@.subrange(pos as int, n as int), '\n'),
            forall|j: int| 0 <= j < done.len() ==> line_fits(fmt, trim(#[trigger] done[j])),
            fmt == LyricFormat::Lrc ==> {
                let acc = format_scan(LyricFormat::Lrc, done).lines;
                &&& sorted == starts_sorted(acc)
                &&& match last {
                    Some(t) => acc.len() > 0 && acc.last().start == t,
                    None => acc.len() == 0,
                }
            },
        decreases n - pos,
    {
        let (end, more) = next_piece(cs, pos, '\n');
        let raw = &cs[pos..end];
        assert(lines(cs@)[done.len() as int] == raw@);
        let line = trim_chars(raw);
        if !line_fits_chars(fmt, line) {
            assert(!all_lines_fit(fmt, content@));
            return false;
        }
        let ghost before = done;
        proof {
            assert(done.push(raw@).drop_last() =~= done);
            done = done.push(raw@);
        }
        if fmt == LyricFormat::Lrc {
            let ti: [char; 4] = ['[', 't', 'i', ':'];
            let ar: [char; 4] = ['[', 'a', 'r', ':'];
            assert(ti@ =~= ti_tag());
            assert(ar@ =~= ar_tag());
            if !starts_with_chars(line, ti.as_slice()) && !starts_with_chars(line, ar.as_slice()) {
                if let Some((t, _text)) = parse_lrc_line_chars(line) {
                    proof {
                        let acc = format_scan(LyricFormat::Lrc, before).lines;
                        let e = lrc_entry(t as int, _text@);
                        assert(format_scan(LyricFormat::Lrc, done).lines == acc.push(e));
                        if sorted && (last matches Some(p) ==> p <= t) {
                            lemma_sorted_push(acc, e);
                        } else {
                            lemma_unsorted_push(acc, e);
                        }
                    }
                    match last {
                        Some(p) => {
                            if p > t {
                                sorted = false;
                            }
                        },
                        None => {},
                    }
                    last = Some(t);
                }
            }
        }
        if !more {
            proof {
                assert(lines(cs@) =~= done);
                assert forall|i: int| 0 <= i < lines(content@).len() implies line_fits(
                    fmt,
                    trim(#[trigger] lines(content@)[i]),
                ) by {
                    assert(lines(content@)[i] == done[i]);
                }
            }
            return fmt != LyricFormat::Lrc || sorted;
        }
        proof {
            assert(lines(cs@) =~= done + crate::text::split(cs@.subrange(end + 1, n as int), '\n'));
        }
        pos = end + 1;
    }
}

/// The lines shown around the current line `idx` of `len` lines: from two
/// before it (or the first) up to, not including, three after it (or the
/// end).
pub fn lyric_window(idx: usize, len: usize) -> (r: (usize, usize))
    ensures
        r.0 == (if idx >= 2 { idx - 2 } else { 0 }),
        r.1 == (if idx + 3 < len { idx + 3 } else { len as int }),
{
    let start = if idx >= 2 { idx - 2 } else { 0 };
    let end = if idx < len && len - idx > 3 { idx + 3 } else { len };
    (start, end)
}

/// The lines the lyric panel shows: around the current line (see
/// `lyric_window`), or, before the first line is reached, the first two.
pub fn lyric_view_range(current: Option<usize>, len: usize) -> (r: (usize, usize))
    ensures
        match current {
            Some(idx) => r.0 == (if idx >= 2 { idx - 2 } else { 0 }) && r.1 == (if idx + 3 < len {
                idx + 3
            } else {
                len as int
            }),
            None => r.0 == 0 && r.1 == (if len < 2 { len } else { 2 }),
        },
{
    match current {
        Some(idx) => lyric_window(idx, len),
        None => (0, if len < 2 { len } else { 2 }),
    }
}

} // verus!
