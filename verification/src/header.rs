use crate::number::{
    bounded_value, digits_end, is_decimal, is_float, is_float_text, parse_unsigned,
};
use crate::text::{
    chars_of, find_char, find_from, has_prefix, lines_of, rows, same_text, slice_of, split_lines,
    string_of, texts,
};
use vstd::prelude::*;

verus! {

/// A header field whose value must parse.
#[derive(Debug, PartialEq, Eq, Clone, Copy, Structural)]
pub enum HeaderField {
    Player,
    Bpm,
    PlayLevel,
}

/// What the header commands of a chart say.
#[derive(Debug, PartialEq, Eq)]
pub struct Header {
    pub player: u8,
    pub genre: String,
    pub title: String,
    pub artist: String,
    /// The tempo as the chart writes it: always the text of a
    /// floating-point number.
    pub bpm: String,
    pub play_level: u8,
    /// The values of the sound declarations, in the order of their lines.
    pub sound_paths: Vec<String>,
}

/// A `Header` as plain values.
pub ghost struct HeaderModel {
    pub player: u8,
    pub genre: Seq<char>,
    pub title: Seq<char>,
    pub artist: Seq<char>,
    pub bpm: Seq<char>,
    pub play_level: u8,
    pub sound_paths: Seq<Seq<char>>,
}

impl HeaderModel {
    /// Whether the tempo is the text of a floating-point number.
    pub open spec fn well_formed(self) -> bool {
        is_float_text(self.bpm)
    }
}

impl View for Header {
    type V = HeaderModel;

    open spec fn view(&self) -> HeaderModel {
        HeaderModel {
            player: self.player,
            genre: self.genre@,
            title: self.title@,
            artist: self.artist@,
            bpm: self.bpm@,
            play_level: self.play_level,
            sound_paths: texts(self.sound_paths@),
        }
    }
}

/// The header of a chart without commands: zero, empty texts, a tempo of
/// `0`, no sound.
pub open spec fn empty_header() -> HeaderModel {
    HeaderModel {
        player: 0,
        genre: Seq::empty(),
        title: Seq::empty(),
        artist: Seq::empty(),
        bpm: "0"@,
        play_level: 0,
        sound_paths: Seq::empty(),
    }
}

/// The header after `line`. A line is a command where it holds a space and
/// begins with `#`: the token runs from behind the `#` to the first space,
/// the value from behind that space to the end. `PLAYER` and `PLAYLEVEL` set
/// a number up to 255, `BPM` the text of a floating-point number, and each
/// fails on another value; `GENRE`, `TITLE` and `ARTIST` set their text; a
/// token that begins with `WAV` or `wav` adds its value to the sounds.
/// Every other line leaves the header as it is.
pub open spec fn apply_line(h: HeaderModel, line: Seq<char>) -> Result<HeaderModel, HeaderField> {
    let space = find_from(line, ' ', 0);
    let command = line.take(space);
    let value = line.skip(space + 1);
    if space >= line.len() || !"#"@.is_prefix_of(command) {
        Ok(h)
    } else if command == "#PLAYER"@ {
        match bounded_value(value, 10, u8::MAX as int) {
            Some(v) => Ok(HeaderModel { player: v as u8, ..h }),
            None => Err(HeaderField::Player),
        }
    } else if command == "#GENRE"@ {
        Ok(HeaderModel { genre: value, ..h })
    } else if command == "#TITLE"@ {
        Ok(HeaderModel { title: value, ..h })
    } else if command == "#ARTIST"@ {
        Ok(HeaderModel { artist: value, ..h })
    } else if command == "#BPM"@ {
        if is_float_text(value) {
            Ok(HeaderModel { bpm: value, ..h })
        } else {
            Err(HeaderField::Bpm)
        }
    } else if command == "#PLAYLEVEL"@ {
        match bounded_value(value, 10, u8::MAX as int) {
            Some(v) => Ok(HeaderModel { play_level: v as u8, ..h }),
            None => Err(HeaderField::PlayLevel),
        }
    } else if "#WAV"@.is_prefix_of(command) || "#wav"@.is_prefix_of(command) {
        Ok(HeaderModel { sound_paths: h.sound_paths.push(value), ..h })
    } else {
        Ok(h)
    }
}

/// The header after the lines from index `i` on, each applied in turn; the
/// field of the first line that fails.
pub open spec fn apply_lines(h: HeaderModel, lines: Seq<Seq<char>>, i: int) -> Result<
    HeaderModel,
    HeaderField,
>
    decreases lines.len() - i,
{
    if i < 0 || i >= lines.len() {
        Ok(h)
    } else {
        match apply_line(h, lines[i]) {
            Ok(next) => apply_lines(next, lines, i + 1),
            Err(field) => Err(field),
        }
    }
}

/// The header that the commands of `text` give.
pub open spec fn header_of(text: Seq<char>) -> Result<HeaderModel, HeaderField> {
    apply_lines(empty_header(), lines_of(text), 0)
}

/// A `Result` of headers as plain values.
pub open spec fn header_result(r: Result<Header, HeaderField>) -> Result<HeaderModel, HeaderField> {
    match r {
        Ok(h) => Ok(h@),
        Err(field) => Err(field),
    }
}

fn is_word(s: &[char], word: &str) -> (yes: bool)
    ensures
        yes == (s@ == word@),
{
    let letters = chars_of(word);
    same_text(s, letters.as_slice())
}

fn begins_with(s: &[char], word: &str) -> (yes: bool)
    ensures
        yes == word@.is_prefix_of(s@),
{
    let letters = chars_of(word);
    has_prefix(s, letters.as_slice())
}

fn small_number(value: &[char]) -> (n: Option<u8>)
    ensures
        match n {
            Some(v) => bounded_value(value@, 10, u8::MAX as int) == Some(v as int),
            None => bounded_value(value@, 10, u8::MAX as int) is None,
        },
{
    match parse_unsigned(value, 10, u8::MAX as u64) {
        Some(v) => Some(v as u8),
        None => None,
    }
}

impl Header {
    /// The header of a chart without commands.
    pub fn new() -> (h: Header)
        ensures
            h@ == empty_header(),
            h@.well_formed(),
    {
        proof {
            lemma_empty_header_well_formed();
        }
        let h = Header {
            player: 0,
            genre: String::new(),
            title: String::new(),
            artist: String::new(),
            bpm: "0".to_owned(),
            play_level: 0,
            sound_paths: Vec::new(),
        };
        proof {
            assert(h@.sound_paths =~= Seq::empty());
        }
        h
    }

    /// Applies one line to the header.
    pub fn apply(self, line: &[char]) -> (r: Result<Header, HeaderField>)
        ensures
            header_result(r) == apply_line(self@, line@),
            self@.well_formed() && r is Ok ==> r->Ok_0@.well_formed(),
    {
        let space = find_char(line, ' ', 0);
        if space >= line.len() {
            return Ok(self);
        }
        let command = slice_of(line, 0, space);
        let value = slice_of(line, space + 1, line.len());
        let command = command.as_slice();
        let value = value.as_slice();
        if !begins_with(command, "#") {
            return Ok(self);
        }
        let mut h = self;
        if is_word(command, "#PLAYER") {
            match small_number(value) {
                Some(v) => {
                    h.player = v;
                },
                None => {
                    return Err(HeaderField::Player);
                },
            }
        } else if is_word(command, "#GENRE") {
            h.genre = string_of(value);
        } else if is_word(command, "#TITLE") {
            h.title = string_of(value);
        } else if is_word(command, "#ARTIST") {
            h.artist = string_of(value);
        } else if is_word(command, "#BPM") {
            if is_float(value) {
                h.bpm = string_of(value);
            } else {
                return Err(HeaderField::Bpm);
            }
        } else if is_word(command, "#PLAYLEVEL") {
            match small_number(value) {
                Some(v) => {
                    h.play_level = v;
                },
                None => {
                    return Err(HeaderField::PlayLevel);
                },
            }
        } else if begins_with(command, "#WAV") || begins_with(command, "#wav") {
            let ghost before = h.sound_paths@;
            h.sound_paths.push(string_of(value));
            proof {
                assert(texts(h.sound_paths@) =~= texts(before).push(value@));
            }
        }
        Ok(h)
    }

    /// Reads the header commands of a chart's text.
    pub fn parse(text: &[char]) -> (r: Result<Header, HeaderField>)
        ensures
            header_result(r) == header_of(text@),
            r is Ok ==> r->Ok_0@.well_formed(),
    {
        let lines = split_lines(text);
        let mut h = Header::new();
        let mut i: usize = 0;
        while i < lines.len()
            invariant
                i <= lines.len(),
                rows(lines@) == lines_of(text@),
                apply_lines(h@, lines_of(text@), i as int) == header_of(text@),
                h@.well_formed(),
            decreases lines.len() - i,
        {
            proof {
                assert(rows(lines@)[i as int] == lines@[i as int]@);
            }
            match h.apply(lines[i].as_slice()) {
                Ok(next) => {
                    h = next;
                },
                Err(field) => {
                    return Err(field);
                },
            }
            i += 1;
        }
        Ok(h)
    }
}

/// The tempo `0` of a chart without commands is the text of a number.
pub proof fn lemma_empty_header_well_formed()
    ensures
        empty_header().well_formed(),
{
    reveal_strlit("0");
    let s = "0"@;
    reveal_with_fuel(digits_end, 3);
    assert(digits_end(s, 0) == 1);
    assert(is_decimal(s, 0));
}

/// Whether `line` is a command whose value must parse and does not.
pub open spec fn line_fails(line: Seq<char>) -> bool {
    apply_line(empty_header(), line) is Err
}

/// Whether a line fails does not depend on the header before it, and the
/// lines from `i` on fail where one of them does.
pub proof fn lemma_failing_line_stops(h: HeaderModel, lines: Seq<Seq<char>>, i: int, k: int)
    requires
        0 <= i <= k < lines.len(),
        line_fails(lines[k]),
    ensures
        apply_line(h, lines[k]) is Err,
        apply_lines(h, lines, i) is Err,
    decreases k - i,
{
    if i < k {
        match apply_line(h, lines[i]) {
            Ok(next) => {
                lemma_failing_line_stops(next, lines, i + 1, k);
            },
            Err(_) => {},
        }
    }
}

/// A tempo line whose value is not the text of a number fails.
pub proof fn lemma_bad_tempo_fails(value: Seq<char>)
    requires
        !is_float_text(value),
    ensures
        line_fails("#BPM "@ + value),
        apply_line(empty_header(), "#BPM "@ + value) == Err::<HeaderModel, HeaderField>(
            HeaderField::Bpm,
        ),
{
    reveal_strlit("#BPM ");
    reveal_strlit("#BPM");
    reveal_strlit("#");
    reveal_strlit("#PLAYER");
    reveal_strlit("#GENRE");
    reveal_strlit("#TITLE");
    reveal_strlit("#ARTIST");
    let line = "#BPM "@ + value;
    reveal_with_fuel(find_from, 6);
    assert(find_from(line, ' ', 0) == 4);
    assert(line.take(4) =~= "#BPM"@);
    assert(line.skip(5) =~= value);
    assert(line.take(4).subrange(0, 1) =~= "#"@);
}

/// A tempo line whose value is the text of a number sets the tempo to
/// that text and nothing else.
pub proof fn lemma_good_tempo_is_kept(h: HeaderModel, value: Seq<char>)
    requires
        is_float_text(value),
    ensures
        apply_line(h, "#BPM "@ + value) == Ok::<HeaderModel, HeaderField>(
            HeaderModel { bpm: value, ..h },
        ),
{
    reveal_strlit("#BPM ");
    reveal_strlit("#BPM");
    reveal_strlit("#");
    reveal_strlit("#PLAYER");
    reveal_strlit("#GENRE");
    reveal_strlit("#TITLE");
    reveal_strlit("#ARTIST");
    let line = "#BPM "@ + value;
    reveal_with_fuel(find_from, 6);
    assert(find_from(line, ' ', 0) == 4);
    assert(line.take(4) =~= "#BPM"@);
    assert(line.skip(5) =~= value);
    assert(line.take(4).subrange(0, 1) =~= "#"@);
}

} // verus!
