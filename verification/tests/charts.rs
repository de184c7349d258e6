use bms_chart::chart_data::{ChartData, ChartError, Object};
use bms_chart::encoding::resolve_encoding;
use bms_chart::header::{Header, HeaderField};
use bms_chart::subsequence::SubSequence;

fn chars(s: &str) -> Vec<char> {
    s.chars().collect()
}

const HEADER: &str = "\n*---------------------- HEADER FIELD\n\n#PLAYER 1\n#GENRE UK HARDCORE\n#TITLE B.B.K.K.B.K.K. (NORMAL)\n#ARTIST nora2r / \u{51fa}\u{524d}\n#BPM 170\n#PLAYLEVEL 3\n#RANK 3\n\n#WAV01 kick.wav\n#WAV02 snare.wav\n\n#00111:0101010001\n";

#[test]
fn load_test() {
    let data: ChartData =
        ChartData::from_bytes("./assets/2r_bbkkbkk".to_string(), HEADER.as_bytes()).unwrap();

    assert_eq!(data.player, 1);
    assert_eq!(data.genre, "UK HARDCORE".to_string());
    assert_eq!(data.title, "B.B.K.K.B.K.K. (NORMAL)".to_string());
    assert_eq!(data.artist, "nora2r / 出前".to_string());
    assert_eq!(data.bpm.parse::<f64>().unwrap(), 170.0);
    assert_eq!(data.play_level, 3);
}

#[test]
fn header_block_gives_its_fields() {
    let text = "#BPM 170.0\n#PLAYLEVEL 3\n#PLAYER 1\n#GENRE UK HARDCORE\n#TITLE B.B.K.K.B.K.K. (NORMAL)\n#ARTIST nora2r\n";
    let data = ChartData::from_data("dir".to_string(), text.to_string()).unwrap();
    assert_eq!(data.path, "dir");
    assert_eq!(data.bpm, "170.0");
    assert_eq!(data.bpm.parse::<f64>().unwrap(), 170.0);
    assert_eq!(data.play_level, 3);
    assert_eq!(data.player, 1);
    assert_eq!(data.genre, "UK HARDCORE");
    assert_eq!(data.title, "B.B.K.K.B.K.K. (NORMAL)");
    assert_eq!(data.artist, "nora2r");
    assert!(data.sound_paths.is_empty());
    assert!(data.subseqs.is_empty());
}

#[test]
fn empty_text_gives_the_empty_chart() {
    let data = ChartData::from_data(String::new(), String::new()).unwrap();
    assert_eq!(data.player, 0);
    assert_eq!(data.genre, "");
    assert_eq!(data.title, "");
    assert_eq!(data.artist, "");
    assert_eq!(data.bpm, "0");
    assert_eq!(data.bpm.parse::<f64>().unwrap(), 0.0);
    assert_eq!(data.play_level, 0);
    assert!(data.sound_paths.is_empty());
    assert!(data.subseqs.is_empty());
    assert_eq!(data.count_measures(), 0);
    assert_eq!(Header::new(), Header::parse(&[]).unwrap());
}

#[test]
fn unparsable_bpm_fails_whatever_else_is_there() {
    let expected = Err(ChartError::FieldParse { field: HeaderField::Bpm });
    assert_eq!(ChartData::from_data(String::new(), "#BPM notanumber".to_string()), expected);
    assert_eq!(
        ChartData::from_data(
            String::new(),
            "#PLAYER 1\n#TITLE t\n#BPM notanumber\n#PLAYLEVEL 3\n#00111:01\n".to_string()
        ),
        expected
    );
    assert_eq!(
        ChartData::from_bytes(String::new(), b"#GENRE g\r\n#BPM notanumber\r\n"),
        expected
    );
}

#[test]
fn unparsable_numbers_fail_with_their_field() {
    let player = Err(ChartError::FieldParse { field: HeaderField::Player });
    let level = Err(ChartError::FieldParse { field: HeaderField::PlayLevel });
    assert_eq!(ChartData::from_data(String::new(), "#PLAYER one".to_string()), player);
    assert_eq!(ChartData::from_data(String::new(), "#PLAYER 256".to_string()), player);
    assert_eq!(ChartData::from_data(String::new(), "#PLAYER -1".to_string()), player);
    assert_eq!(ChartData::from_data(String::new(), "#PLAYER ".to_string()), player);
    assert_eq!(ChartData::from_data(String::new(), "#PLAYER 1 ".to_string()), player);
    assert_eq!(ChartData::from_data(String::new(), "#PLAYLEVEL 3.5".to_string()), level);
    assert_eq!(
        ChartData::from_data(String::new(), "#PLAYLEVEL x\n#PLAYER y".to_string()),
        level
    );
    let data = ChartData::from_data(String::new(), "#PLAYER +255\n#PLAYLEVEL 007".to_string())
        .unwrap();
    assert_eq!(data.player, 255);
    assert_eq!(data.play_level, 7);
}

#[test]
fn other_lines_never_fail() {
    let text = "PLAYER x\n #BPM x\n#BPM\n#player x\n#RANK x\n#BPMX x\n#WAVzz\n\n*#BPM x\n";
    let data = ChartData::from_data(String::new(), text.to_string()).unwrap();
    assert_eq!(data.player, 0);
    assert_eq!(data.bpm, "0");
    assert!(data.sound_paths.is_empty());
}

#[test]
fn sounds_keep_the_order_of_their_lines() {
    let text = "#WAV03 c.wav\n#wav01 a b.wav\n#WAV bare.ogg\n#Wav02 no.wav\n#WAV03 c.wav\r\n#WAVE \n";
    let data = ChartData::from_data(String::new(), text.to_string()).unwrap();
    assert_eq!(data.sound_paths, vec!["c.wav", "a b.wav", "bare.ogg", "c.wav", ""]);
}

#[test]
fn later_commands_replace_earlier_ones() {
    let text = "#TITLE one\n#TITLE two words\n#BPM 1e2\n#BPM -.5\n";
    let data = ChartData::from_data(String::new(), text.to_string()).unwrap();
    assert_eq!(data.title, "two words");
    assert_eq!(data.bpm, "-.5");
    assert_eq!(data.bpm.parse::<f64>().unwrap(), -0.5);
}

#[test]
fn header_lines_apply_one_by_one() {
    let h = Header::new().apply(&chars("#GENRE jazz")).unwrap();
    assert_eq!(h.genre, "jazz");
    let h = h.apply(&chars("#ARTIST  someone")).unwrap();
    assert_eq!(h.artist, " someone");
    assert_eq!(h.genre, "jazz");
    assert_eq!(h.apply(&chars("#PLAYLEVEL")).unwrap().play_level, 0);
    assert_eq!(
        Header::new().apply(&chars("#PLAYLEVEL 999")),
        Err(HeaderField::PlayLevel)
    );
}

#[test]
fn bytes_in_neither_encoding_fail_to_decode() {
    assert_eq!(
        ChartData::from_bytes(String::new(), &[0x23, 0xff, 0xff]),
        Err(ChartError::Decode)
    );
    assert_eq!(resolve_encoding(&[0xff]), None);
    assert_eq!(
        ChartData::from_bytes(String::new(), b"#BPM 1\n\xfd\xfe\n"),
        Err(ChartError::Decode)
    );
}

#[test]
fn legacy_bytes_are_decoded() {
    let bytes: Vec<u8> = vec![
        b'#', b'A', b'R', b'T', b'I', b'S', b'T', b' ', 0x8f, 0x6f, 0x91, 0x4f, b'\n',
    ];
    assert_eq!(
        resolve_encoding(&bytes),
        Some("#ARTIST \u{51fa}\u{524d}\n".to_string())
    );
    let data = ChartData::from_bytes(String::new(), &bytes).unwrap();
    assert_eq!(data.artist, "\u{51fa}\u{524d}");
}

#[test]
fn utf8_bytes_are_decoded_where_the_legacy_reading_fails() {
    let text = "#TITLE \u{51fa}\u{524d}\n";
    assert_eq!(resolve_encoding(text.as_bytes()), Some(text.to_string()));
    assert_eq!(resolve_encoding(b"plain"), Some("plain".to_string()));
    assert_eq!(resolve_encoding(b""), Some(String::new()));
}

#[test]
fn reading_twice_gives_the_same_chart() {
    let first = ChartData::from_bytes("p".to_string(), HEADER.as_bytes());
    let second = ChartData::from_bytes("p".to_string(), HEADER.as_bytes());
    assert!(first.is_ok());
    assert_eq!(first, second);
    let data = first.unwrap();
    assert_eq!(data.sound_paths, vec!["kick.wav", "snare.wav"]);
    assert_eq!(data.subseqs.len(), 1);
    assert_eq!(data.subseqs[0].measure, 1);
    assert_eq!(data.subseqs[0].channel, 11);
    assert_eq!(data.subseqs[0].notes.len(), 5);
    assert_eq!(data.subseqs[0].notes[3], Object::Silent);
    let bad = ChartData::from_bytes("p".to_string(), &[0xff]);
    assert_eq!(bad, ChartData::from_bytes("p".to_string(), &[0xff]));
}

fn chart_with_measures(measures: &[u32]) -> ChartData {
    let mut text = String::new();
    for (i, m) in measures.iter().enumerate() {
        text.push_str(&format!("#{:03}{:02}:01\n", m, i));
    }
    ChartData::from_data(String::new(), text).unwrap()
}

#[test]
fn measures_count_by_runs_not_by_distinct_values() {
    assert_eq!(chart_with_measures(&[]).count_measures(), 0);
    assert_eq!(chart_with_measures(&[7]).count_measures(), 1);
    assert_eq!(chart_with_measures(&[1, 1, 2, 2, 3]).count_measures(), 3);
    assert_eq!(chart_with_measures(&[1, 1, 2, 1]).count_measures(), 3);
    assert_eq!(chart_with_measures(&[1, 2, 1, 2]).count_measures(), 4);
    assert_eq!(chart_with_measures(&[5, 5, 5]).count_measures(), 1);
}

#[test]
fn measure_query_filters_and_keeps_order() {
    let data = chart_with_measures(&[1, 2, 1, 3, 2, 1]);
    let ones = data.get_measure(1);
    assert_eq!(ones.iter().map(|s| s.channel).collect::<Vec<u32>>(), vec![0, 2, 5]);
    assert!(ones.iter().all(|s| s.measure == 1));
    let twos = data.get_measure(2);
    assert_eq!(twos.iter().map(|s| s.channel).collect::<Vec<u32>>(), vec![1, 4]);
    assert_eq!(data.get_measure(3).len(), 1);
    assert_eq!(data.get_measure(4), Vec::<SubSequence>::new());
    assert_eq!(data.subseqs.len(), 6);
}

#[test]
fn measures_together_give_all_sequences() {
    let data = chart_with_measures(&[4, 2, 4, 9, 2, 4, 0]);
    let mut all: Vec<SubSequence> = Vec::new();
    for m in [0, 2, 4, 9] {
        all.extend(data.get_measure(m));
    }
    assert_eq!(all.len(), data.subseqs.len());
    for s in &data.subseqs {
        assert_eq!(all.iter().filter(|t| *t == s).count(), 1);
    }
}

#[test]
fn errors_say_what_failed() {
    assert_eq!(ChartError::Decode.message(), "chart is neither Shift JIS nor UTF-8 text");
    assert_eq!(
        ChartError::FieldParse { field: HeaderField::Player }.message(),
        "header field PLAYER does not parse"
    );
    assert_eq!(
        ChartError::FieldParse { field: HeaderField::Bpm }.message(),
        "header field BPM does not parse"
    );
    assert_eq!(
        ChartError::FieldParse { field: HeaderField::PlayLevel }.message(),
        "header field PLAYLEVEL does not parse"
    );
}
