use crate::chart_data::Object;
use crate::number::{
    bounded_value, digits_value, lemma_digits_nonnegative, parse_unsigned, unsigned_value,
};
use crate::pattern::{capture_groups, find_all, groups_view, regex_captures, regex_matches};
use crate::text::{find_char, lemma_find_from_bounds, same_text, slice_of, texts};
use vstd::prelude::*;

verus! {

/// The greatest value that a note symbol of two characters can write.
pub const MAX_SYMBOL: u32 = 1295;

/// The object that one note symbol stands for: the symbol is read in base
/// 36; zero is silence, another value a note with that sound. None where the
/// symbol is no such number, or one beyond `usize`.
pub open spec fn symbol_object(symbol: Seq<char>) -> Option<Object> {
    match bounded_value(symbol, 36, usize::MAX as int) {
        Some(v) => Some(
            if v == 0 {
                Object::Silent
            } else {
                Object::Note { sound: v as usize }
            },
        ),
        None => None,
    }
}

/// The objects of `payload` from index `i` on: the payload is cut into
/// symbols of two characters, a last one of one character where the length is
/// odd; each symbol gives its object, and one that stands for none is left
/// out.
pub open spec fn notes_from(payload: Seq<char>, i: int) -> Seq<Object>
    decreases payload.len() - i,
{
    if i < 0 || i >= payload.len() {
        Seq::empty()
    } else {
        let end = if i + 2 <= payload.len() {
            i + 2
        } else {
            payload.len() as int
        };
        match symbol_object(payload.subrange(i, end)) {
            Some(o) => seq![o] + notes_from(payload, end),
            None => notes_from(payload, end),
        }
    }
}

/// The objects of `payload`.
pub open spec fn notes_of(payload: Seq<char>) -> Seq<Object> {
    notes_from(payload, 0)
}

/// A symbol of at most two characters writes at most `MAX_SYMBOL`.
pub proof fn lemma_symbol_bound(symbol: Seq<char>)
    requires
        symbol.len() <= 2,
    ensures
        unsigned_value(symbol, 36) is Some ==> 0 <= unsigned_value(symbol, 36)->0 <= MAX_SYMBOL,
        unsigned_value(symbol, 36) == bounded_value(symbol, 36, MAX_SYMBOL as int),
        unsigned_value(symbol, 36) == bounded_value(symbol, 36, usize::MAX as int),
{
    let body = if symbol.len() > 0 && symbol[0] == '+' {
        symbol.skip(1)
    } else {
        symbol
    };
    reveal_with_fuel(digits_value, 3);
    lemma_digits_nonnegative(body, 36);
    if body.len() == 2 {
        assert(body.drop_last().drop_last().len() == 0);
    } else if body.len() == 1 {
        assert(body.drop_last().len() == 0);
    }
}

/// Reads one note symbol.
pub fn decode_symbol(symbol: &[char]) -> (object: Option<Object>)
    ensures
        object == symbol_object(symbol@),
        object != Some(Object::Note { sound: 0 }),
{
    match parse_unsigned(symbol, 36, usize::MAX as u64) {
        Some(v) => if v == 0 {
            Some(Object::Silent)
        } else {
            Some(Object::Note { sound: v as usize })
        },
        None => None,
    }
}

/// Reads the objects of a payload of note symbols.
pub fn decode_notes(payload: &[char]) -> (notes: Vec<Object>)
    ensures
        notes@ == notes_of(payload@),
        forall|k: int| 0 <= k < notes.len() ==> notes[k] != (Object::Note { sound: 0 }),
{
    let mut notes: Vec<Object> = Vec::new();
    let mut i: usize = 0;
    while i < payload.len()
        invariant
            i <= payload.len(),
            notes@ + notes_from(payload@, i as int) == notes_of(payload@),
            forall|k: int| 0 <= k < notes.len() ==> notes[k] != (Object::Note { sound: 0 }),
        decreases payload.len() - i,
    {
        let end: usize = if payload.len() - i >= 2 {
            i + 2
        } else {
            payload.len()
        };
        let symbol = slice_of(payload, i, end);
        let ghost before = notes@;
        match decode_symbol(symbol.as_slice()) {
            Some(o) => {
                notes.push(o);
            },
            None => {},
        }
        proof {
            assert(notes@ + notes_from(payload@, end as int) =~= before + notes_from(
                payload@,
                i as int,
            ));
        }
        i = end;
    }
    proof {
        assert(notes@ + notes_from(payload@, i as int) =~= notes@);
    }
    notes
}

/// The expression that a line of timed objects matches: `#`, three
/// characters of measure, two of channel, `:`, and the payload up to the end
/// of the line.
pub const GRAMMAR: &'static str = "#(.{3})(.{2}):(.*)";

/// What `SubSequence::try_from` answers for a text that holds no such line.
pub const NO_SEQUENCE: &'static str = "Failed to parse sequence";

/// One line of timed objects.
#[derive(Debug, PartialEq, Eq)]
pub struct SubSequence {
    /// The measure that the line belongs to.
    pub measure: u32,
    /// The lane of the objects; only carried.
    pub channel: u32,
    /// The objects, in the order of their symbols in the line.
    pub notes: Vec<Object>,
}

/// A `SubSequence` as plain values.
pub ghost struct SubSequenceModel {
    pub measure: u32,
    pub channel: u32,
    pub notes: Seq<Object>,
}

impl SubSequenceModel {
    /// Whether no note has the sound zero, which stands for silence.
    pub open spec fn well_formed(self) -> bool {
        forall|k: int| 0 <= k < self.notes.len() ==> self.notes[k] != (Object::Note { sound: 0 })
    }
}

impl View for SubSequence {
    type V = SubSequenceModel;

    open spec fn view(&self) -> SubSequenceModel {
        SubSequenceModel { measure: self.measure, channel: self.channel, notes: self.notes@ }
    }
}

/// The number that `s` writes in base ten, or zero where it writes none that
/// fits.
pub open spec fn number_or_zero(s: Seq<char>) -> u32 {
    match bounded_value(s, 10, u32::MAX as int) {
        Some(v) => v as u32,
        None => 0,
    }
}

/// Whether `whole` is a line of timed objects with these parts: `#`, the
/// three characters of `measure`, the two of `channel`, `:` and `payload`,
/// with no line feed among them.
pub open spec fn well_shaped(
    whole: Seq<char>,
    measure: Seq<char>,
    channel: Seq<char>,
    payload: Seq<char>,
) -> bool {
    &&& measure.len() == 3
    &&& channel.len() == 2
    &&& whole == seq!['#'] + measure + channel + seq![':'] + payload
    &&& !whole.contains('\n')
}

/// The record that the groups of one match give: the first group is the
/// whole match, the next three are measure, channel and payload. A measure or
/// channel that is no number is zero. None where one of the four is missing
/// or they do not have the shape of a line of timed objects.
pub open spec fn sequence_of_groups(groups: Seq<Option<Seq<char>>>) -> Option<SubSequenceModel> {
    if groups.len() >= 4 && groups[0] is Some && groups[1] is Some && groups[2] is Some
        && groups[3] is Some && well_shaped(
        groups[0]->0,
        groups[1]->0,
        groups[2]->0,
        groups[3]->0,
    ) {
        Some(
            SubSequenceModel {
                measure: number_or_zero(groups[1]->0),
                channel: number_or_zero(groups[2]->0),
                notes: notes_of(groups[3]->0),
            },
        )
    } else {
        None
    }
}

/// The record that `text` gives: that of the groups of the leftmost match of
/// `GRAMMAR` in it.
pub open spec fn sequence_of_text(text: Seq<char>) -> Option<SubSequenceModel> {
    match regex_captures(GRAMMAR@, text) {
        Some(groups) => sequence_of_groups(groups),
        None => None,
    }
}

fn decimal_or_zero(s: &[char]) -> (n: u32)
    ensures
        n == number_or_zero(s@),
{
    match parse_unsigned(s, 10, u32::MAX as u64) {
        Some(v) => v as u32,
        None => 0,
    }
}

fn has_shape(whole: &[char], measure: &[char], channel: &[char], payload: &[char]) -> (yes: bool)
    ensures
        yes == well_shaped(whole@, measure@, channel@, payload@),
{
    let ghost joined = seq!['#'] + measure@ + channel@ + seq![':'] + payload@;
    if measure.len() != 3 || channel.len() != 2 || whole.len() < 7 || whole.len() - 7
        != payload.len() {
        return false;
    }
    let first = slice_of(whole, 1, 4);
    let second = slice_of(whole, 4, 6);
    let rest = slice_of(whole, 7, whole.len());
    let parts = whole[0] == '#' && whole[6] == ':' && same_text(first.as_slice(), measure)
        && same_text(second.as_slice(), channel) && same_text(rest.as_slice(), payload);
    proof {
        assert(joined[0] == '#' && joined[6] == ':');
        assert(joined.subrange(1, 4) =~= measure@);
        assert(joined.subrange(4, 6) =~= channel@);
        assert(joined.subrange(7, joined.len() as int) =~= payload@);
        if parts {
            assert forall|k: int| 0 <= k < whole@.len() implies whole@[k] == joined[k] by {
                if 1 <= k < 4 {
                    assert(whole@[k] == first@[k - 1]);
                } else if 4 <= k < 6 {
                    assert(whole@[k] == second@[k - 4]);
                } else if 7 <= k {
                    assert(whole@[k] == rest@[k - 7]);
                }
            }
            assert(whole@ =~= joined);
        }
    }
    if !parts {
        return false;
    }
    let feed = find_char(whole, '\n', 0);
    proof {
        lemma_find_from_bounds(whole@, '\n', 0);
    }
    feed == whole.len()
}

impl SubSequence {
    /// Builds the record from the groups of one match.
    pub fn from_groups(groups: &Vec<Option<Vec<char>>>) -> (sequence: Option<SubSequence>)
        ensures
            match sequence {
                Some(seq) => sequence_of_groups(groups_view(groups@)) == Some(seq@)
                    && seq@.well_formed(),
                None => sequence_of_groups(groups_view(groups@)) is None,
            },
    {
        if groups.len() < 4 {
            return None;
        }
        match (&groups[0], &groups[1], &groups[2], &groups[3]) {
            (Some(whole), Some(measure), Some(channel), Some(payload)) => {
                if has_shape(
                    whole.as_slice(),
                    measure.as_slice(),
                    channel.as_slice(),
                    payload.as_slice(),
                ) {
                    Some(
                        SubSequence {
                            measure: decimal_or_zero(measure.as_slice()),
                            channel: decimal_or_zero(channel.as_slice()),
                            notes: decode_notes(payload.as_slice()),
                        },
                    )
                } else {
                    None
                }
            },
            _ => None,
        }
    }

    /// Reads the leftmost line of timed objects in `s`.
    pub fn try_from(s: String) -> (sequence: Result<SubSequence, &'static str>)
        ensures
            match sequence {
                Ok(seq) => sequence_of_text(s@) == Some(seq@) && seq@.well_formed(),
                Err(e) => sequence_of_text(s@) is None && e@ == NO_SEQUENCE@,
            },
    {
        match capture_groups(GRAMMAR, s.as_str()) {
            Some(groups) => match SubSequence::from_groups(&groups) {
                Some(seq) => Ok(seq),
                None => Err(NO_SEQUENCE),
            },
            None => Err(NO_SEQUENCE),
        }
    }
}

impl Clone for SubSequence {
    /// A copy of this record.
    fn clone(&self) -> (copy: SubSequence)
        ensures
            copy@ == self@,
    {
        let mut notes: Vec<Object> = Vec::new();
        let mut i: usize = 0;
        while i < self.notes.len()
            invariant
                i <= self.notes.len(),
                notes@ == self.notes@.take(i as int),
            decreases self.notes.len() - i,
        {
            notes.push(self.notes[i]);
            i += 1;
            proof {
                assert(self.notes@.take(i as int) == self.notes@.take(i - 1).push(
                    self.notes@[i - 1],
                ));
            }
        }
        proof {
            assert(self.notes@.take(i as int) == self.notes@);
        }
        SubSequence { measure: self.measure, channel: self.channel, notes }
    }
}

/// A symbol of two characters that writes zero in base 36 stands for
/// silence, and one that writes another value stands for the note with that
/// value as its sound; alone in a payload it gives that one object.
pub proof fn lemma_symbol_decoding(symbol: Seq<char>)
    requires
        symbol.len() == 2,
        unsigned_value(symbol, 36) is Some,
    ensures
        unsigned_value(symbol, 36)->0 == 0 ==> notes_of(symbol) == seq![Object::Silent],
        unsigned_value(symbol, 36)->0 != 0 ==> notes_of(symbol) == seq![
            Object::Note { sound: unsigned_value(symbol, 36)->0 as usize },
        ],
        unsigned_value(symbol, 36)->0 != 0 ==> unsigned_value(symbol, 36)->0 as usize
            == unsigned_value(symbol, 36)->0,
{
    lemma_symbol_bound(symbol);
    assert(symbol.subrange(0, 2) == symbol);
    assert(notes_from(symbol, 2) == Seq::<Object>::empty());
    assert(notes_of(symbol) == seq![symbol_object(symbol)->0] + notes_from(symbol, 2));
    assert(seq![symbol_object(symbol)->0] + Seq::<Object>::empty() =~= seq![
        symbol_object(symbol)->0,
    ]);
}

/// The views of a vector of records, in order.
pub open spec fn models(v: Seq<SubSequence>) -> Seq<SubSequenceModel> {
    v.map_values(|s: SubSequence| s@)
}

/// The records that matched pieces of a text give, in their order: each
/// piece gives its record, and one that gives none is left out.
pub open spec fn sequences_of_matches(pieces: Seq<Seq<char>>) -> Seq<SubSequenceModel>
    decreases pieces.len(),
{
    if pieces.len() == 0 {
        Seq::empty()
    } else {
        let before = sequences_of_matches(pieces.drop_last());
        match sequence_of_text(pieces.last()) {
            Some(m) => before.push(m),
            None => before,
        }
    }
}

/// The records of a chart's text: those of the matches of `GRAMMAR` in it,
/// from left to right.
pub open spec fn sequences_of(text: Seq<char>) -> Seq<SubSequenceModel> {
    match regex_matches(GRAMMAR@, text) {
        Some(pieces) => sequences_of_matches(pieces),
        None => Seq::empty(),
    }
}

/// Reads the record of each matched piece.
pub fn collect_sequences(pieces: &Vec<String>) -> (sequences: Vec<SubSequence>)
    ensures
        models(sequences@) == sequences_of_matches(texts(pieces@)),
        forall|k: int| 0 <= k < sequences.len() ==> (#[trigger] sequences[k])@.well_formed(),
{
    let mut sequences: Vec<SubSequence> = Vec::new();
    let mut i: usize = 0;
    proof {
        assert(models(sequences@) =~= Seq::empty());
    }
    while i < pieces.len()
        invariant
            i <= pieces.len(),
            models(sequences@) == sequences_of_matches(texts(pieces@).take(i as int)),
            forall|k: int| 0 <= k < sequences.len() ==> (#[trigger] sequences[k])@.well_formed(),
        decreases pieces.len() - i,
    {
        let ghost before = models(sequences@);
        proof {
            assert(texts(pieces@).take(i + 1).drop_last() == texts(pieces@).take(i as int));
            assert(texts(pieces@).take(i + 1).last() == pieces@[i as int]@);
        }
        match SubSequence::try_from(pieces[i].clone()) {
            Ok(seq) => {
                sequences.push(seq);
                proof {
                    assert(models(sequences@) =~= before.push(seq@));
                }
            },
            Err(_) => {},
        }
        i += 1;
    }
    proof {
        assert(texts(pieces@).take(i as int) == texts(pieces@));
    }
    sequences
}

/// Finds the lines of timed objects in a chart's text and reads each.
pub fn timed_sequences(text: &str) -> (sequences: Vec<SubSequence>)
    ensures
        models(sequences@) == sequences_of(text@),
        forall|k: int| 0 <= k < sequences.len() ==> (#[trigger] sequences[k])@.well_formed(),
{
    match find_all(GRAMMAR, text) {
        Some(pieces) => collect_sequences(&pieces),
        None => {
            let sequences: Vec<SubSequence> = Vec::new();
            proof {
                assert(models(sequences@) =~= Seq::empty());
            }
            sequences
        },
    }
}

/// Every match of the shape of a line of timed objects gives a record,
/// whatever its measure, channel and payload hold; groups of another shape
/// give none.
pub proof fn lemma_shape_decides(groups: Seq<Option<Seq<char>>>)
    requires
        groups.len() == 4,
        forall|k: int| 0 <= k < 4 ==> groups[k] is Some,
    ensures
        sequence_of_groups(groups) is Some <==> well_shaped(
            groups[0]->0,
            groups[1]->0,
            groups[2]->0,
            groups[3]->0,
        ),
        sequence_of_groups(groups) is Some ==> sequence_of_groups(groups)->0.well_formed(),
{
    if sequence_of_groups(groups) is Some {
        lemma_notes_have_sounds(groups[3]->0, 0);
    }
}

/// No object of a payload is a note with the sound zero.
pub proof fn lemma_notes_have_sounds(payload: Seq<char>, i: int)
    ensures
        forall|k: int|
            0 <= k < notes_from(payload, i).len() ==> notes_from(payload, i)[k] != (Object::Note {
                sound: 0,
            }),
    decreases payload.len() - i,
{
    if 0 <= i < payload.len() {
        let end = if i + 2 <= payload.len() {
            i + 2
        } else {
            payload.len() as int
        };
        lemma_notes_have_sounds(payload, end);
        lemma_symbol_bound(payload.subrange(i, end));
    }
}

/// Every matched piece that gives a record gives exactly one, and a piece
/// that gives none adds nothing: where all pieces give one there are as many
/// records as pieces, each that of its piece; where none does there are no
/// records.
pub proof fn lemma_one_record_per_match(pieces: Seq<Seq<char>>)
    ensures
        sequences_of_matches(pieces).len() <= pieces.len(),
        (forall|k: int| 0 <= k < pieces.len() ==> sequence_of_text(#[trigger] pieces[k]) is Some)
            ==> sequences_of_matches(pieces).len() == pieces.len() && forall|k: int|
            0 <= k < pieces.len() ==> Some(#[trigger] sequences_of_matches(pieces)[k])
                == sequence_of_text(pieces[k]),
        (forall|k: int| 0 <= k < pieces.len() ==> sequence_of_text(#[trigger] pieces[k]) is None)
            ==> sequences_of_matches(pieces).len() == 0,
    decreases pieces.len(),
{
    if pieces.len() > 0 {
        let front = pieces.drop_last();
        lemma_one_record_per_match(front);
        assert(forall|k: int| 0 <= k < front.len() ==> front[k] == pieces[k]);
    }
}

} // verus!
