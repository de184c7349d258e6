use crate::encoding::{resolve_encoding, shift_jis_text, text_of_bytes};
use crate::header::{
    empty_header, header_of, lemma_failing_line_stops, line_fails, Header, HeaderField,
};
use crate::number::is_float_text;
use crate::subsequence::{models, sequences_of, timed_sequences, SubSequence, SubSequenceModel};
use crate::text::{chars_of, lines_of, texts};
use vstd::prelude::*;
use vstd::utf8::valid_utf8;

verus! {

/// What one timing slot of a chart holds.
#[derive(Debug, PartialEq, Eq, Clone, Copy, Structural)]
pub enum Object {
    /// Nothing sounds at this slot.
    Silent,
    /// The sound at index `sound` of the chart's sound paths; never zero
    /// where a chart was read. The index is not held against the number of
    /// sound paths: a chart may name a sound that it does not declare, and
    /// whoever plays the chart decides what that means.
    Note { sound: usize },
}

/// Why a chart could not be read.
#[derive(Debug, PartialEq, Eq, Clone, Copy, Structural)]
pub enum ChartError {
    /// The bytes are text in neither encoding.
    Decode,
    /// The value of this header field does not parse.
    FieldParse { field: HeaderField },
}

impl ChartError {
    /// What went wrong, in words: the stage that failed and, for a header
    /// field, which one.
    pub open spec fn message_text(self) -> Seq<char> {
        match self {
            ChartError::Decode => "chart is neither Shift JIS nor UTF-8 text"@,
            ChartError::FieldParse { field: HeaderField::Player } =>
                "header field PLAYER does not parse"@,
            ChartError::FieldParse { field: HeaderField::Bpm } =>
                "header field BPM does not parse"@,
            ChartError::FieldParse { field: HeaderField::PlayLevel } =>
                "header field PLAYLEVEL does not parse"@,
        }
    }

    /// What went wrong, in words.
    pub fn message(&self) -> (text: &'static str)
        ensures
            text@ == self.message_text(),
    {
        match self {
            ChartError::Decode => "chart is neither Shift JIS nor UTF-8 text",
            ChartError::FieldParse { field: HeaderField::Player } => {
                "header field PLAYER does not parse"
            },
            ChartError::FieldParse { field: HeaderField::Bpm } => {
                "header field BPM does not parse"
            },
            ChartError::FieldParse { field: HeaderField::PlayLevel } => {
                "header field PLAYLEVEL does not parse"
            },
        }
    }
}

/// A chart: what its header says and its lines of timed objects.
#[derive(Debug, PartialEq, Eq)]
pub struct ChartData {
    /// Where the chart's files lie; only carried.
    pub path: String,
    pub player: u8,
    pub genre: String,
    pub title: String,
    pub artist: String,
    /// The tempo as the chart writes it: always the text of a
    /// floating-point number.
    pub bpm: String,
    pub play_level: u8,
    /// The sound files, in the order in which the chart declares them.
    pub sound_paths: Vec<String>,
    /// The lines of timed objects, in the order in which the chart holds
    /// them.
    pub subseqs: Vec<SubSequence>,
}

/// A `ChartData` as plain values.
pub ghost struct ChartModel {
    pub path: Seq<char>,
    pub player: u8,
    pub genre: Seq<char>,
    pub title: Seq<char>,
    pub artist: Seq<char>,
    pub bpm: Seq<char>,
    pub play_level: u8,
    pub sound_paths: Seq<Seq<char>>,
    pub subseqs: Seq<SubSequenceModel>,
}

impl ChartModel {
    /// Whether the tempo is the text of a floating-point number and no note
    /// has the sound zero.
    pub open spec fn well_formed(self) -> bool {
        &&& is_float_text(self.bpm)
        &&& forall|k: int| 0 <= k < self.subseqs.len() ==> (#[trigger] self.subseqs[k]).well_formed()
    }
}

impl View for ChartData {
    type V = ChartModel;

    open spec fn view(&self) -> ChartModel {
        ChartModel {
            path: self.path@,
            player: self.player,
            genre: self.genre@,
            title: self.title@,
            artist: self.artist@,
            bpm: self.bpm@,
            play_level: self.play_level,
            sound_paths: texts(self.sound_paths@),
            subseqs: models(self.subseqs@),
        }
    }
}

/// A `Result` of charts as plain values.
pub open spec fn chart_result(r: Result<ChartData, ChartError>) -> Result<ChartModel, ChartError> {
    match r {
        Ok(chart) => Ok(chart@),
        Err(e) => Err(e),
    }
}

/// The chart that `text` describes: its header and its lines of timed
/// objects; the field of the first header line that fails.
pub open spec fn chart_of_text(path: Seq<char>, text: Seq<char>) -> Result<ChartModel, ChartError> {
    match header_of(text) {
        Ok(h) => Ok(
            ChartModel {
                path,
                player: h.player,
                genre: h.genre,
                title: h.title,
                artist: h.artist,
                bpm: h.bpm,
                play_level: h.play_level,
                sound_paths: h.sound_paths,
                subseqs: sequences_of(text),
            },
        ),
        Err(field) => Err(ChartError::FieldParse { field }),
    }
}

/// The chart that `bytes` describe: that of their text, or a decoding error
/// where they are text in neither encoding.
pub open spec fn chart_of_bytes(path: Seq<char>, bytes: Seq<u8>) -> Result<ChartModel, ChartError> {
    match text_of_bytes(bytes) {
        Some(text) => chart_of_text(path, text),
        None => Err(ChartError::Decode),
    }
}

/// The number of runs of equal measures among `subseqs`: neighbours with the
/// same measure count once, and a measure that comes back after another
/// counts again.
pub open spec fn measure_runs(subseqs: Seq<SubSequenceModel>) -> nat
    decreases subseqs.len(),
{
    if subseqs.len() == 0 {
        0
    } else if subseqs.len() == 1 {
        1
    } else if subseqs[subseqs.len() - 1].measure == subseqs[subseqs.len() - 2].measure {
        measure_runs(subseqs.drop_last())
    } else {
        measure_runs(subseqs.drop_last()) + 1
    }
}

/// The records of `subseqs` whose measure is `measure`, in their order.
pub open spec fn of_measure(subseqs: Seq<SubSequenceModel>, measure: u32) -> Seq<SubSequenceModel> {
    subseqs.filter(|s: SubSequenceModel| s.measure == measure)
}

/// The records of each of `measures` in turn, one measure after another.
pub open spec fn of_measures(subseqs: Seq<SubSequenceModel>, measures: Seq<u32>) -> Seq<
    SubSequenceModel,
>
    decreases measures.len(),
{
    if measures.len() == 0 {
        Seq::empty()
    } else {
        of_measures(subseqs, measures.drop_last()) + of_measure(subseqs, measures.last())
    }
}

impl ChartData {
    /// Reads a chart from its text: the header commands line by line, and
    /// the lines of timed objects wherever they stand.
    pub fn from_data(path: String, data: String) -> (r: Result<ChartData, ChartError>)
        ensures
            chart_result(r) == chart_of_text(path@, data@),
            r is Ok ==> r->Ok_0@.well_formed(),
    {
        let text = chars_of(data.as_str());
        match Header::parse(text.as_slice()) {
            Ok(h) => Ok(
                ChartData {
                    path,
                    player: h.player,
                    genre: h.genre,
                    title: h.title,
                    artist: h.artist,
                    bpm: h.bpm,
                    play_level: h.play_level,
                    sound_paths: h.sound_paths,
                    subseqs: timed_sequences(data.as_str()),
                },
            ),
            Err(field) => Err(ChartError::FieldParse { field }),
        }
    }

    /// Reads a chart from the bytes of its file: decodes them, as Shift JIS
    /// or else as UTF-8, and reads the text. The decoder sizes its buffer at
    /// three bytes for each byte of input, so three times the length must
    /// fit in `usize`.
    pub fn from_bytes(path: String, bytes: &[u8]) -> (r: Result<ChartData, ChartError>)
        requires
            3 * bytes@.len() <= usize::MAX,
        ensures
            chart_result(r) == chart_of_bytes(path@, bytes@),
            r is Ok ==> r->Ok_0@.well_formed(),
            shift_jis_text(bytes@) is None && !valid_utf8(bytes@) ==> r == Err::<
                ChartData,
                ChartError,
            >(ChartError::Decode),
    {
        match resolve_encoding(bytes) {
            Some(data) => ChartData::from_data(path, data),
            None => Err(ChartError::Decode),
        }
    }

    /// Counts the runs of equal measures among the lines of timed objects.
    pub fn count_measures(&self) -> (count: usize)
        ensures
            count == measure_runs(self@.subseqs),
    {
        let mut count: usize = 0;
        let mut i: usize = 0;
        while i < self.subseqs.len()
            invariant
                i <= self.subseqs.len(),
                count <= i,
                count == measure_runs(self@.subseqs.take(i as int)),
            decreases self.subseqs.len() - i,
        {
            proof {
                assert(self@.subseqs.take(i + 1).drop_last() == self@.subseqs.take(i as int));
            }
            if i == 0 || self.subseqs[i].measure != self.subseqs[i - 1].measure {
                count += 1;
            }
            i += 1;
        }
        proof {
            assert(self@.subseqs.take(i as int) == self@.subseqs);
        }
        count
    }

    /// The lines of timed objects of one measure, in their order.
    pub fn get_measure(&self, measure: u32) -> (found: Vec<SubSequence>)
        ensures
            models(found@) == of_measure(self@.subseqs, measure),
    {
        let ghost wanted = |s: SubSequenceModel| s.measure == measure;
        let mut found: Vec<SubSequence> = Vec::new();
        let mut i: usize = 0;
        proof {
            assert(models(found@) =~= Seq::empty());
            assert(self@.subseqs.take(0) =~= Seq::empty());
            reveal(Seq::filter);
        }
        while i < self.subseqs.len()
            invariant
                i <= self.subseqs.len(),
                wanted == |s: SubSequenceModel| s.measure == measure,
                models(found@) == self@.subseqs.take(i as int).filter(wanted),
            decreases self.subseqs.len() - i,
        {
            let ghost before = models(found@);
            proof {
                reveal(Seq::filter);
                assert(self@.subseqs.take(i + 1).drop_last() == self@.subseqs.take(i as int));
                assert(self@.subseqs.take(i + 1).last() == self.subseqs@[i as int]@);
            }
            if self.subseqs[i].measure == measure {
                let copy = self.subseqs[i].clone();
                found.push(copy);
                proof {
                    assert(models(found@) =~= before.push(copy@));
                }
            }
            i += 1;
        }
        proof {
            assert(self@.subseqs.take(i as int) == self@.subseqs);
        }
        found
    }
}

proof fn lemma_count_of_measure(subseqs: Seq<SubSequenceModel>, measure: u32, v: SubSequenceModel)
    ensures
        of_measure(subseqs, measure).to_multiset().count(v) == if v.measure == measure {
            subseqs.to_multiset().count(v)
        } else {
            0
        },
    decreases subseqs.len(),
{
    broadcast use vstd::multiset::group_multiset_axioms;

    let wanted = |s: SubSequenceModel| s.measure == measure;
    if subseqs.len() == 0 {
        reveal(Seq::filter);
        subseqs.to_multiset_ensures();
        subseqs.filter(wanted).to_multiset_ensures();
        assert(subseqs.filter(wanted).len() == 0);
    } else {
        let front = subseqs.drop_last();
        let x = subseqs.last();
        assert(subseqs == front.push(x));
        lemma_count_of_measure(front, measure, v);
        front.lemma_filter_push(x, wanted);
        vstd::seq_lib::to_multiset_build(front, x);
        vstd::seq_lib::to_multiset_build(front.filter(wanted), x);
    }
}

proof fn lemma_count_of_measures(
    subseqs: Seq<SubSequenceModel>,
    measures: Seq<u32>,
    v: SubSequenceModel,
)
    requires
        measures.no_duplicates(),
    ensures
        of_measures(subseqs, measures).to_multiset().count(v) == if measures.contains(v.measure) {
            subseqs.to_multiset().count(v)
        } else {
            0
        },
    decreases measures.len(),
{
    broadcast use vstd::multiset::group_multiset_axioms;

    if measures.len() == 0 {
        of_measures(subseqs, measures).to_multiset_ensures();
    } else {
        let front = measures.drop_last();
        let last = measures.last();
        lemma_count_of_measures(subseqs, front, v);
        lemma_count_of_measure(subseqs, last, v);
        vstd::seq_lib::lemma_multiset_commutative(
            of_measures(subseqs, front),
            of_measure(subseqs, last),
        );
        if v.measure == last {
            assert(measures[measures.len() - 1] == v.measure);
            if front.contains(v.measure) {
                let k = choose|k: int| 0 <= k < front.len() && front[k] == v.measure;
                assert(measures[k] == measures[measures.len() - 1]);
            }
        } else {
            if measures.contains(v.measure) {
                let k = choose|k: int| 0 <= k < measures.len() && measures[k] == v.measure;
                assert(front[k] == v.measure);
            }
            if front.contains(v.measure) {
                let k = choose|k: int| 0 <= k < front.len() && front[k] == v.measure;
                assert(measures[k] == v.measure);
            }
        }
    }
}

/// The records of one measure are among the chart's records and keep their
/// order; taken together over a list that names each measure of the chart
/// once, they are the chart's records again, each as often as the chart
/// holds it.
pub proof fn lemma_measures_partition(subseqs: Seq<SubSequenceModel>, measures: Seq<u32>)
    requires
        measures.no_duplicates(),
        forall|i: int| 0 <= i < subseqs.len() ==> measures.contains(#[trigger] subseqs[i].measure),
    ensures
        of_measures(subseqs, measures).to_multiset() == subseqs.to_multiset(),
{
    broadcast use vstd::multiset::group_multiset_axioms;

    assert forall|v: SubSequenceModel|
        of_measures(subseqs, measures).to_multiset().count(v) == subseqs.to_multiset().count(
            v,
        ) by {
        lemma_count_of_measures(subseqs, measures, v);
        if !measures.contains(v.measure) {
            subseqs.to_multiset_ensures();
            if subseqs.to_multiset().count(v) > 0 {
                assert(subseqs.contains(v));
                let i = choose|i: int| 0 <= i < subseqs.len() && subseqs[i] == v;
                assert(measures.contains(subseqs[i].measure));
            }
        }
    }
    assert(of_measures(subseqs, measures).to_multiset() =~= subseqs.to_multiset());
}

/// A measure's records are the chart's records with that measure, no others
/// and none missing, and they grow in the chart's order: those of a front
/// part of the chart are a front part of those of the whole.
pub proof fn lemma_measure_is_ordered_part(subseqs: Seq<SubSequenceModel>, measure: u32)
    ensures
        of_measure(subseqs, measure).len() <= subseqs.len(),
        forall|k: int|
            0 <= k < of_measure(subseqs, measure).len() ==> (#[trigger] of_measure(
                subseqs,
                measure,
            )[k]).measure == measure && subseqs.contains(of_measure(subseqs, measure)[k]),
        forall|i: int|
            0 <= i < subseqs.len() && (#[trigger] subseqs[i]).measure == measure ==> of_measure(
                subseqs,
                measure,
            ).contains(subseqs[i]),
        forall|i: int|
            0 <= i <= subseqs.len() ==> (#[trigger] of_measure(
                subseqs.take(i),
                measure,
            )).is_prefix_of(of_measure(subseqs, measure)),
{
    let wanted = |s: SubSequenceModel| s.measure == measure;
    let part = subseqs.filter(wanted);
    subseqs.lemma_filter_len(wanted);
    assert forall|k: int| 0 <= k < part.len() implies (#[trigger] part[k]).measure == measure
        && subseqs.contains(part[k]) by {
        subseqs.lemma_filter_pred(wanted, k);
        assert(part.contains(part[k]));
        subseqs.lemma_filter_contains_rev(wanted, part[k]);
    }
    assert forall|i: int|
        0 <= i < subseqs.len() && (#[trigger] subseqs[i]).measure == measure implies part.contains(
        subseqs[i],
    ) by {
        subseqs.lemma_filter_contains(wanted, i);
    }
    assert forall|i: int| 0 <= i <= subseqs.len() implies (#[trigger] of_measure(
        subseqs.take(i),
        measure,
    )).is_prefix_of(part) by {
        assert(subseqs.take(i).is_prefix_of(subseqs));
        subseqs.take(i).lemma_filter_monotone(subseqs, wanted);
    }
}

/// Reading the same bytes twice gives the same chart, field for field, or
/// the same error.
pub proof fn lemma_reading_repeats(
    path: Seq<char>,
    bytes: Seq<u8>,
    first: Result<ChartData, ChartError>,
    second: Result<ChartData, ChartError>,
)
    requires
        chart_result(first) == chart_of_bytes(path, bytes),
        chart_result(second) == chart_of_bytes(path, bytes),
    ensures
        chart_result(first) == chart_result(second),
        first is Ok <==> second is Ok,
        first is Ok ==> first->Ok_0@ == second->Ok_0@,
        first is Err ==> first->Err_0 == second->Err_0,
{
}

/// A header line that fails makes the whole chart fail with a field error,
/// whatever the other lines hold.
pub proof fn lemma_failing_line_is_fatal(path: Seq<char>, text: Seq<char>, k: int)
    requires
        0 <= k < lines_of(text).len(),
        line_fails(lines_of(text)[k]),
    ensures
        chart_of_text(path, text) is Err,
        chart_of_text(path, text)->Err_0 is FieldParse,
{
    lemma_failing_line_stops(empty_header(), lines_of(text), 0, k);
}

} // verus!
