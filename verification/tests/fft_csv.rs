use musickbeets::fft_csv::{
    is_float_text_exec, read_fft_csv, read_fft_csv_records, write_fft_csv_metadata, CsvError,
    CsvField, CsvMetadata, CsvRecon, CsvWindow,
};
use musickbeets::segmentation::LastEditedField;

fn sample_metadata() -> CsvMetadata {
    CsvMetadata {
        sample_rate: 48000,
        window_length: 8192,
        hop_length: 2048,
        overlap: "75".to_string(),
        window: CsvWindow::Hann,
        use_center: true,
        start_sample: 0,
        stop_sample: 0,
        recon: Some(CsvRecon {
            freq_count: 4097,
            freq_min: "0.00".to_string(),
            freq_max: "5000.00".to_string(),
        }),
        zero_pad_factor: 1,
        target_segments_per_active: Some(17),
        target_bins_per_segment: Some(1025),
        last_edited: LastEditedField::SegmentsPerActive,
        view_freq_min: Some("100.00".to_string()),
        view_freq_max: Some("2000.00".to_string()),
    }
}

#[test]
fn test_csv_roundtrip() {
    let meta = sample_metadata();
    let line = write_fft_csv_metadata(&meta);
    assert_eq!(
        line,
        "48000,8192,2048,75,Hann,true,1,0,0,4097,0.00,5000.00,1,17,1025,SegmentsPerActive,100.00,2000.00\n"
    );
    let text = line
        + "time_sec,frequency_hz,magnitude,phase_rad\n"
        + "0.0000000000,0.0000,0.500000,0.000000\n"
        + "0.0000000000,100.0000,0.800000,1.570000\n"
        + "0.0000000000,200.0000,0.300000,3.140000\n";
    let (read, frames) = read_fft_csv(&text).expect("import should succeed");
    assert_eq!(read, meta);
    assert_eq!(read.sample_rate, 48000);
    assert_eq!(read.window_length, 8192);
    assert_eq!(read.target_segments_per_active, Some(17));
    assert_eq!(read.target_bins_per_segment, Some(1025));
    assert_eq!(read.last_edited, LastEditedField::SegmentsPerActive);
    assert_eq!(frames.len(), 1);
    assert_eq!(frames[0].1.len(), 3);
    assert_eq!(frames[0].1[1], ("100.0000".to_string(), "0.800000".to_string(), "1.570000".to_string()));
    assert!(read.recon.is_some());
    assert_eq!(read.view_freq_min.as_deref(), Some("100.00"));
    assert_eq!(read.view_freq_max.as_deref(), Some("2000.00"));
}

#[test]
fn test_csv_import_backward_compat_without_solver_fields() {
    let csv = "48000,8192,2048,75,Hann,false,1,0,44100,4097,0.00,5000.00,1\n".to_string()
        + "time_sec,frequency_hz,magnitude,phase_rad\n"
        + "0.00000,0.0000,0.500000,0.000000\n";
    let (meta, frames) = read_fft_csv(&csv).expect("import should succeed");
    assert_eq!(meta.target_segments_per_active, None);
    assert_eq!(meta.target_bins_per_segment, None);
    assert_eq!(meta.last_edited, LastEditedField::Overlap);
    assert_eq!(meta.zero_pad_factor, 1);
    assert_eq!(meta.stop_sample, 44100);
    assert!(meta.view_freq_min.is_none());
    assert_eq!(frames.len(), 1);
}

#[test]
fn test_csv_multiple_frames() {
    let text = write_fft_csv_metadata(&sample_metadata())
        + "time_sec,frequency_hz,magnitude,phase_rad\n"
        + "0.0100000000,0.0000,0.300000,1.000000\n"
        + "0.0000000000,0.0000,0.100000,0.000000\n"
        + "0.0000000000,100.0000,0.200000,0.500000\n"
        + "0.0100000000,100.0000,0.400000,1.500000\n"
        + "short,row\n";
    let (_, frames) = read_fft_csv(&text).expect("import should succeed");
    assert_eq!(frames.len(), 2);
    assert_eq!(frames[0].0, "0.0000000000");
    assert_eq!(frames[1].0, "0.0100000000");
    assert_eq!(frames[0].1[0].1, "0.100000");
    assert_eq!(frames[1].1[0].1, "0.300000");
    assert_eq!(frames[1].1[1].1, "0.400000");
}

#[test]
fn csv_errors() {
    assert_eq!(read_fft_csv(""), Err(CsvError::Empty));
    assert_eq!(read_fft_csv("1,2,3\n"), Err(CsvError::TooFewFields(3)));
    assert_eq!(
        read_fft_csv("x,8192,2048,75,Hann,false,1,0,44100\nh\n"),
        Err(CsvError::InvalidField(CsvField::SampleRate))
    );
    assert_eq!(
        read_fft_csv("48000,8192,2048,abc,Hann,false,1,0,44100\nh\n"),
        Err(CsvError::InvalidField(CsvField::Overlap))
    );
    assert_eq!(
        read_fft_csv("48000,8192,2048,75,Triangle,false,1,0,44100\nh\n"),
        Err(CsvError::UnknownWindowType("Triangle".to_string()))
    );
    assert_eq!(
        read_fft_csv("48000,8192,2048,75,Kaiser_x,false,1,0,44100\nh\n"),
        Err(CsvError::InvalidKaiserBeta)
    );
    assert_eq!(
        read_fft_csv("48000,8192,2048,75,Hann,yes,1,0,44100\nh\n"),
        Err(CsvError::InvalidField(CsvField::UseCenter))
    );
    assert_eq!(read_fft_csv("48000,8192,2048,75,Hann,false,1,0,44100\n"), Err(CsvError::NoDataRows));
    let (m, _) = read_fft_csv("48000,8192,2048,75,Kaiser_Kaiser_8.6,false,1,0,44100,x,a,b,0,0,-1\nh\n").unwrap();
    assert_eq!(m.window, CsvWindow::Kaiser("8.6".to_string()));
    assert_eq!(m.recon, Some(CsvRecon { freq_count: 4097, freq_min: "a".to_string(), freq_max: "b".to_string() }));
    assert_eq!(m.zero_pad_factor, 0);
    assert_eq!(m.target_segments_per_active, None);
    assert_eq!(m.target_bins_per_segment, None);
}

#[test]
fn records_given_directly() {
    let rec = |fields: &[&str]| fields.iter().map(|f| f.to_string()).collect::<Vec<String>>();
    let records = vec![
        rec(&["44100", "1024", "512", "50", "Blackman", "true", "1", "10", "20"]),
        rec(&["labels"]),
        rec(&["b", "1", "2", "3"]),
        rec(&["a", "4", "5", "6", "extra"]),
        rec(&["b", "7", "8", "9"]),
    ];
    let (m, frames) = read_fft_csv_records(&records).unwrap();
    assert_eq!(m.window, CsvWindow::Blackman);
    assert!(m.recon.is_none());
    let keys: Vec<&str> = frames.iter().map(|g| g.0.as_str()).collect();
    assert_eq!(keys, vec!["a", "b"]);
    assert_eq!(frames[1].1.len(), 2);
}

#[test]
fn float_syntax_follows_from_str() {
    let cases = [
        "", "1", "-1", "+1.5", ".5", "5.", ".", "1e5", "1E-5", "1e", "e5", "1.2.3", "inf", "-INF",
        "Infinity", "nan", "NaN", "infin", "1e5e3", " 1", "1 ", "0x10", "1_000", "+", "-.5e+3",
    ];
    for c in cases {
        assert_eq!(is_float_text_exec(c), c.parse::<f32>().is_ok(), "input {:?}", c);
        assert_eq!(is_float_text_exec(c), c.parse::<f64>().is_ok(), "input {:?}", c);
    }
}
