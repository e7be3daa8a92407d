use rekordcrate::anlz::{AnalysisFile, AnlzError, Section};

/// A file with a header of 28 bytes and two sections.
fn sample() -> Vec<u8> {
    let mut file = b"PMAI".to_vec();
    file.extend([0, 0, 0, 0x1C]);
    file.extend([0, 0, 0, 0x3D]);
    file.extend([0x11; 16]);
    file.extend(b"PPTH");
    file.extend([0, 0, 0, 0x10]);
    file.extend([0, 0, 0, 0x15]);
    file.extend([0, 0, 0, 0x05]);
    file.extend(b"a.mp3");
    file.extend(b"PVBR");
    file.extend([0, 0, 0, 0x0C]);
    file.extend([0, 0, 0, 0x0C]);
    assert_eq!(file.len(), 0x3D);
    file
}

#[test]
fn analysis_file_round_trips() {
    let bytes = sample();
    let file = AnalysisFile::read(&bytes).unwrap();
    assert_eq!(file.header, vec![0x11; 16]);
    assert_eq!(
        file.sections,
        vec![
            Section { kind: 0x5050_5448, header: vec![0, 0, 0, 5], content: b"a.mp3".to_vec() },
            Section { kind: 0x5056_4252, header: vec![], content: vec![] },
        ]
    );
    assert_eq!(file.write().unwrap(), bytes);
}

#[test]
fn analysis_file_without_sections_round_trips() {
    let mut bytes = b"PMAI".to_vec();
    bytes.extend([0, 0, 0, 12, 0, 0, 0, 12]);
    let file = AnalysisFile::read(&bytes).unwrap();
    assert_eq!(file, AnalysisFile { header: vec![], sections: vec![] });
    assert_eq!(file.write().unwrap(), bytes);
}

#[test]
fn analysis_lengths_are_big_endian() {
    let file = AnalysisFile {
        header: vec![1, 2],
        sections: vec![Section { kind: 0x0102_0304, header: vec![9; 0x100], content: vec![7; 3] }],
    };
    let bytes = file.write().unwrap();
    assert_eq!(&bytes[..14], &[b'P', b'M', b'A', b'I', 0, 0, 0, 14, 0, 0, 0x01, 0x1D, 1, 2]);
    assert_eq!(&bytes[14..26], &[1, 2, 3, 4, 0, 0, 0x01, 0x0C, 0, 0, 0x01, 0x0F]);
    assert_eq!(bytes.len(), 0x11D);
    assert_eq!(AnalysisFile::read(&bytes).unwrap(), file);
    assert_eq!(file.sections[0].encode().unwrap(), bytes[14..].to_vec());
}

#[test]
fn analysis_file_that_ends_early_is_refused() {
    let bytes = sample();
    assert_eq!(AnalysisFile::read(&bytes[..11]), Err(AnlzError::Truncated));
    assert_eq!(AnalysisFile::read(&[]), Err(AnlzError::Truncated));
    // The length of the file is not the one in its header.
    assert_eq!(AnalysisFile::read(&bytes[..0x3C]), Err(AnlzError::Length));
    let mut longer = bytes.clone();
    longer.push(0);
    assert_eq!(AnalysisFile::read(&longer), Err(AnlzError::Length));
    // A file that announces its cut length ends inside its last section.
    let mut cut = bytes[..0x3C].to_vec();
    cut[11] = 0x3C;
    assert_eq!(AnalysisFile::read(&cut), Err(AnlzError::Truncated));
    let mut cut = bytes[..0x30].to_vec();
    cut[11] = 0x30;
    assert_eq!(AnalysisFile::read(&cut), Err(AnlzError::Length));
}

#[test]
fn analysis_file_with_wrong_tag_is_refused() {
    let mut bytes = sample();
    bytes[3] = b'J';
    assert_eq!(AnalysisFile::read(&bytes), Err(AnlzError::Magic));
}

#[test]
fn analysis_file_with_wrong_lengths_is_refused() {
    // The header is shorter than its own tag and lengths.
    let mut bytes = sample();
    bytes[7] = 11;
    assert_eq!(AnalysisFile::read(&bytes), Err(AnlzError::Length));
    // The header is longer than the file.
    let mut bytes = sample();
    bytes[7] = 0x3E;
    assert_eq!(AnalysisFile::read(&bytes), Err(AnlzError::Length));
    // The header of a section is longer than the section.
    let mut bytes = sample();
    bytes[0x1C + 7] = 0x16;
    assert_eq!(AnalysisFile::read(&bytes), Err(AnlzError::Length));
    // A section of less than twelve bytes.
    let mut bytes = sample();
    bytes[0x1C + 7] = 0x0B;
    assert_eq!(AnalysisFile::read(&bytes), Err(AnlzError::Length));
    // A section that is longer than what is left of the file.
    let mut bytes = sample();
    bytes[0x31 + 11] = 0x0D;
    assert_eq!(AnalysisFile::read(&bytes), Err(AnlzError::Length));
}
