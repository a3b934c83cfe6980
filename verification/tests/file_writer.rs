use grizol::file_writer::{
    ChunkAction, ConsolidateStep, FileWriter, FileWriterError, FileWriterState,
};
use std::collections::HashMap;

fn write(writer: &mut FileWriter, files: &mut HashMap<String, Vec<u8>>, data: &[u8], offset: usize) {
    match writer.begin_chunk(data.len(), offset).unwrap() {
        ChunkAction::Write { chunk_pos, path } => {
            files.insert(path, data.to_vec());
            writer.finish_chunk(chunk_pos).unwrap();
        }
        ChunkAction::CreateEmpty { path } => {
            files.insert(path, vec![]);
        }
    }
}

fn consolidate(writer: &mut FileWriter, files: &HashMap<String, Vec<u8>>) -> Vec<u8> {
    let steps = writer.begin_consolidate().unwrap();
    let mut out = vec![];
    for step in steps.unwrap_or(vec![]) {
        assert_eq!(out.len(), step.offset);
        out.extend(&files[&step.chunk_path]);
    }
    writer.finish_consolidate();
    out
}

#[test]
#[allow(non_snake_case)]
fn write_chunk__valid_input__succeeds() {
    let chunk_size = 2;
    let chunk_num = 26;
    let mut files = HashMap::new();
    let mut file_writer =
        FileWriter::new("/tmp/mynewfile".to_string(), chunk_num * chunk_size, chunk_size);

    for k in 0..chunk_num {
        let i = (k * 7 + 3) % chunk_num;
        let data: Vec<u8> = vec![65 + (i as u8); chunk_size];
        write(&mut file_writer, &mut files, &data, chunk_size * i);
    }

    let buf = String::from_utf8(consolidate(&mut file_writer, &files)).unwrap();
    assert_eq!(buf.as_str(), "AABBCCDDEEFFGGHHIIJJKKLLMMNNOOPPQQRRSSTTUUVVWWXXYYZZ");
}

#[test]
fn the_last_chunk_may_be_shorter() {
    let mut files = HashMap::new();
    let mut writer = FileWriter::new("f".to_string(), 5, 2);
    assert_eq!(writer.begin_chunk(1, 2), Err(FileWriterError::WrongSize));
    write(&mut writer, &mut files, b"e", 4);
    write(&mut writer, &mut files, b"ab", 0);
    write(&mut writer, &mut files, b"cd", 2);
    assert_eq!(consolidate(&mut writer, &files), b"abcde");
}

#[test]
fn an_empty_file_is_only_created() {
    let mut writer = FileWriter::new("f".to_string(), 0, 4);
    assert!(matches!(writer.begin_chunk(0, 0), Ok(ChunkAction::CreateEmpty { .. })));
}

#[test]
fn chunks_that_do_not_fit_are_refused() {
    let mut writer = FileWriter::new("f".to_string(), 8, 4);
    assert_eq!(writer.begin_chunk(4, 2), Err(FileWriterError::Unaligned));
    assert_eq!(writer.begin_chunk(4, 8), Err(FileWriterError::PastEnd));
    assert_eq!(writer.begin_chunk(5, 0), Err(FileWriterError::WrongSize));
}

#[test]
fn chunks_are_put_together_once_none_is_being_written() {
    let mut writer = FileWriter::new("f".to_string(), 8, 4);
    assert!(matches!(
        writer.begin_chunk(4, 4),
        Ok(ChunkAction::Write { chunk_pos: 1, .. })
    ));
    assert_eq!(writer.state(), FileWriterState::WritingChunks(1));
    assert_eq!(writer.begin_consolidate(), Err(FileWriterError::Writing));
    assert_eq!(writer.finish_chunk(1), Ok(()));
    let steps: Vec<ConsolidateStep> = writer.begin_consolidate().unwrap().unwrap();
    assert_eq!(steps.iter().map(|s| s.offset).collect::<Vec<usize>>(), vec![0, 4]);
    assert_eq!(writer.begin_chunk(4, 0), Err(FileWriterError::Consolidating));
    assert_eq!(writer.finish_chunk(1), Err(FileWriterError::NotWriting));
    assert_eq!(writer.begin_consolidate(), Err(FileWriterError::StillConsolidating));
    writer.finish_consolidate();
    assert_eq!(writer.file_path(), "f");
}

#[test]
fn errors_of_a_writer_have_texts() {
    let text = |e: FileWriterError| e.to_text("a/f", 8, 4, 5, 2);
    assert_eq!(
        text(FileWriterError::Unaligned),
        "Alignment is at multiples of 4, trying to write unaligned chunk at offset 2 for file a/f"
    );
    assert_eq!(
        text(FileWriterError::PastEnd),
        "Trying to write at position 2, which is larger then the file 8"
    );
    assert_eq!(text(FileWriterError::Consolidating), text(FileWriterError::PastEnd));
    assert_eq!(
        text(FileWriterError::WrongSize),
        "Wrong chunk size 5 for file a/f at offset 2"
    );
    assert_eq!(
        text(FileWriterError::NotWriting),
        "This should never happen, famous last words"
    );
    assert_eq!(
        text(FileWriterError::StillConsolidating),
        "Currently consolidating cannot further consolidate"
    );
    assert_eq!(text(FileWriterError::Writing), "Currently writing cannot consolidate");
}
